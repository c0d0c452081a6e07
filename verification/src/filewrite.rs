//! Writing one file out: create it, append its contents piece by piece, flush it.

use crate::data::{lemma_piece_number, piece_at, Piece, PieceView};
use crate::error::{fault_text, ExtError, Fault, Outcome, Result};
use crate::inode::{Inode, InodeView};
use crate::tasks::text_view;
use crate::volume::{Ext4, VolumeView};
use vstd::prelude::*;

verus! {

/// How far the writing of a file has come. In the stages that end in `ing` the caller is
/// to do something and report how it went.
#[derive(Clone, Copy)]
pub enum Stage {
    Start,
    Creating,
    Piece(u64),
    /// Holds the number of the next piece.
    Appending(u64),
    Flushing,
    Done,
}

pub struct FileWrite {
    pub inode: Inode,
    pub stage: Stage,
    /// Whether the file could be created.
    pub created: bool,
    /// What went wrong.
    pub failure: Option<String>,
}

#[verifier::ext_equal]
pub struct WriteView {
    pub inode: InodeView,
    pub stage: Stage,
    pub created: bool,
    pub failure: Option<Seq<char>>,
}

impl View for FileWrite {
    type V = WriteView;

    open spec fn view(&self) -> WriteView {
        WriteView {
            inode: self.inode@,
            stage: self.stage,
            created: self.created,
            failure: text_view(self.failure),
        }
    }
}

/// What the caller is to do next.
pub enum FileRequest {
    /// Create the file, with the directories above it.
    Create,
    Append(Piece),
    Flush,
    Finished,
}

pub enum FileRequestView {
    Create,
    Append(PieceView),
    Flush,
    Finished,
}

impl View for FileRequest {
    type V = FileRequestView;

    open spec fn view(&self) -> FileRequestView {
        match *self {
            FileRequest::Create => FileRequestView::Create,
            FileRequest::Append(piece) => FileRequestView::Append(piece@),
            FileRequest::Flush => FileRequestView::Flush,
            FileRequest::Finished => FileRequestView::Finished,
        }
    }
}

pub open spec fn new_write(inode: InodeView) -> WriteView {
    WriteView { inode, stage: Stage::Start, created: false, failure: None }
}

impl WriteView {
    /// Whether the caller still owes a report.
    pub open spec fn awaits(self) -> bool {
        self.stage is Creating || self.stage is Appending || self.stage is Flushing
    }

    pub open spec fn failed(self, text: Seq<char>) -> WriteView {
        WriteView { stage: Stage::Done, failure: Some(text), ..self }
    }

    /// The next request, and the state with the request made. The error is a missing block
    /// always: any other keeps the file from being completed and ends the writing.
    pub open spec fn requested(self, v: VolumeView) -> Outcome<(WriteView, FileRequestView)> {
        match self.stage {
            Stage::Start => Ok(
                (WriteView { stage: Stage::Creating, ..self }, FileRequestView::Create),
            ),
            Stage::Piece(k) => match piece_at(v, self.inode, k) {
                Err(Fault::Pending(p)) => Err(Fault::Pending(p)),
                Err(f) => Ok((self.failed(fault_text(f)), FileRequestView::Finished)),
                Ok(Some(piece)) => Ok(
                    (
                        WriteView { stage: Stage::Appending((k + 1) as u64), ..self },
                        FileRequestView::Append(piece),
                    ),
                ),
                Ok(None) => Ok(
                    (WriteView { stage: Stage::Flushing, ..self }, FileRequestView::Flush),
                ),
            },
            _ => Ok((WriteView { stage: Stage::Done, ..self }, FileRequestView::Finished)),
        }
    }

    /// After the caller has done as requested.
    pub open spec fn succeeded(self) -> WriteView {
        match self.stage {
            Stage::Creating => WriteView { stage: Stage::Piece(0), created: true, ..self },
            Stage::Appending(k) => WriteView { stage: Stage::Piece(k), ..self },
            _ => WriteView { stage: Stage::Done, ..self },
        }
    }

    /// After the caller could not do as requested. Moving data is where the volume and the
    /// new file meet: there the error counts as one of input and output.
    pub open spec fn refused(self, text: Seq<char>) -> WriteView {
        if self.stage is Appending {
            self.failed(fault_text(Fault::Io(text)))
        } else {
            self.failed(text)
        }
    }

    pub open spec fn answered(self, r: std::result::Result<(), Seq<char>>) -> WriteView {
        match r {
            Ok(_) => self.succeeded(),
            Err(text) => self.refused(text),
        }
    }
}

/// A report of the caller: done, or the system's complaint.
pub type Report = std::result::Result<(), String>;

pub open spec fn report_view(r: Report) -> std::result::Result<(), Seq<char>> {
    match r {
        Ok(_) => Ok(()),
        Err(text) => Err(text@),
    }
}

impl FileWrite {
    pub fn new(inode: Inode) -> (w: FileWrite)
        ensures
            w@ == new_write(inode@),
    {
        FileWrite { inode, stage: Stage::Start, created: false, failure: None }
    }

    /// What the caller is to do next. Asks for blocks of the volume only as far as they are
    /// needed to find the data.
    pub fn request(&mut self, fs: &Ext4) -> (r: Result<FileRequest>)
        requires
            fs.wf(),
            !old(self)@.awaits(),
        ensures
            match r {
                Ok(request) => old(self)@.requested(fs@) == Ok::<_, Fault>(
                    (final(self)@, request@),
                ),
                Err(e) => old(self)@.requested(fs@) == Err::<(WriteView, FileRequestView), _>(e@)
                    && final(self)@ == old(self)@,
            },
    {
        match self.stage {
            Stage::Start => {
                self.stage = Stage::Creating;
                Ok(FileRequest::Create)
            },
            Stage::Piece(k) => match fs.data_piece(&self.inode, k) {
                Err(ExtError::Pending(p)) => Err(ExtError::Pending(p)),
                Err(e) => {
                    self.stage = Stage::Done;
                    self.failure = Some(e.message());
                    Ok(FileRequest::Finished)
                },
                Ok(Some(piece)) => {
                    proof {
                        lemma_piece_number(fs@, self.inode@, k);
                    }
                    self.stage = Stage::Appending(k + 1);
                    Ok(FileRequest::Append(piece))
                },
                Ok(None) => {
                    self.stage = Stage::Flushing;
                    Ok(FileRequest::Flush)
                },
            },
            _ => {
                self.stage = Stage::Done;
                Ok(FileRequest::Finished)
            },
        }
    }

    /// Takes note of how the requested action went.
    pub fn answer(&mut self, report: Report)
        requires
            old(self)@.awaits(),
        ensures
            final(self)@ == old(self)@.answered(report_view(report)),
    {
        match report {
            Ok(_) => match self.stage {
                Stage::Creating => {
                    self.stage = Stage::Piece(0);
                    self.created = true;
                },
                Stage::Appending(k) => {
                    self.stage = Stage::Piece(k);
                },
                _ => {
                    self.stage = Stage::Done;
                },
            },
            Err(text) => {
                let appending = match self.stage {
                    Stage::Appending(_) => true,
                    _ => false,
                };
                self.failure = Some(
                    if appending {
                        ExtError::Io(text).message()
                    } else {
                        text
                    },
                );
                self.stage = Stage::Done;
            },
        }
    }
}

} // verus!
