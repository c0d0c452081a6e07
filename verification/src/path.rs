//! Paths inside a volume: taking them apart, and following them to an inode.

use crate::data::{file_data, law_data_settled};
use crate::dir::{dir_lookup, law_lookup_settled};
use crate::error::{outcome, unsupported, ExtError, Fault, Outcome, Result};
use crate::inode::{InodeView, EXT4_ROOT_INO};
use crate::ondisk::law_kinds_of_files;
use crate::text::{
    chars_of, components, from_utf8_lossy, law_components_join, law_single_component, lossy_text,
    path_components, string_of, texts,
};
use crate::volume::{inode_at, law_inode_settled, settled, Ext4, VolumeView};
use vstd::prelude::*;
use vstd::set_lib::{lemma_int_range, set_int_range};
use vstd::string::*;

verus! {

/// `s` without the slashes at its end.
pub open spec fn trim_slashes(s: Seq<char>) -> Seq<char>
    decreases s.len(),
{
    if s.len() > 0 && s.last() == '/' {
        trim_slashes(s.drop_last())
    } else {
        s
    }
}

/// The index of the last slash of `s`, or -1.
pub open spec fn last_slash(s: Seq<char>) -> int
    decreases s.len(),
{
    if s.len() == 0 {
        -1
    } else if s.last() == '/' {
        s.len() - 1
    } else {
        last_slash(s.drop_last())
    }
}

/// The directory that holds what `path` names; `"/"` where there is nothing above.
pub open spec fn parent_text(path: Seq<char>) -> Seq<char> {
    let p = trim_slashes(path);
    if last_slash(p) <= 0 {
        seq!['/']
    } else {
        p.take(last_slash(p))
    }
}

/// The last component of `path`, and `"root"` if it has none.
pub open spec fn base_text(path: Seq<char>) -> Seq<char> {
    let p = trim_slashes(path);
    if p.len() == 0 {
        "root"@
    } else {
        p.skip(last_slash(p) + 1)
    }
}

/// `name` below `dir`.
pub open spec fn joined_text(dir: Seq<char>, name: Seq<char>) -> Seq<char> {
    if dir.len() > 0 && dir.last() == '/' {
        dir + name
    } else {
        dir.push('/') + name
    }
}

/// The directory of a name below a directory is that directory, and its last component is
/// the name.
pub proof fn law_join_then_split(dir: Seq<char>, name: Seq<char>)
    requires
        dir == seq!['/'] || (dir.len() > 0 && dir.last() != '/'),
        name.len() > 0,
        forall|i: int| 0 <= i < name.len() ==> name[i] != '/',
    ensures
        parent_text(joined_text(dir, name)) == dir,
        base_text(joined_text(dir, name)) == name,
{
    let p = joined_text(dir, name);
    let head = p.take(p.len() - name.len());
    assert(p =~= head + name);
    assert(p.last() == name.last());
    lemma_last_slash_before(head, name);
    assert(p.skip(last_slash(p) + 1) =~= name);
    if dir == seq!['/'] {
        assert(parent_text(p) =~= dir);
    } else {
        assert(p.take(last_slash(p)) =~= dir);
    }
}

proof fn lemma_last_slash_before(head: Seq<char>, name: Seq<char>)
    requires
        head.len() > 0,
        head.last() == '/',
        forall|i: int| 0 <= i < name.len() ==> name[i] != '/',
    ensures
        last_slash(head + name) == head.len() - 1,
    decreases name.len(),
{
    let s = head + name;
    if name.len() == 0 {
        assert(s =~= head);
    } else {
        assert(s.last() == name.last());
        assert(s.drop_last() =~= head + name.drop_last());
        lemma_last_slash_before(head, name.drop_last());
    }
}

proof fn lemma_trim(s: Seq<char>, n: int)
    requires
        0 <= n <= s.len(),
        forall|i: int| n <= i < s.len() ==> s[i] == '/',
        n > 0 ==> s[n - 1] != '/',
    ensures
        trim_slashes(s) == s.take(n),
    decreases s.len() - n,
{
    if n < s.len() {
        lemma_trim(s.drop_last(), n);
        assert(s.drop_last().take(n) =~= s.take(n));
    } else {
        assert(s.take(n) =~= s);
    }
}

/// Slashes at the end of a path do not count: all of them are trimmed, and nothing else.
pub proof fn law_trailing_slashes(path: Seq<char>, n: nat)
    requires
        path.len() > 0 ==> path.last() != '/',
    ensures
        ({
            let p = path + Seq::new(n, |i: int| '/');
            &&& trim_slashes(p) == path
            &&& parent_text(p) == parent_text(path)
            &&& base_text(p) == base_text(path)
        }),
{
    let p = path + Seq::new(n, |i: int| '/');
    lemma_trim(p, path.len() as int);
    assert(p.take(path.len() as int) =~= path);
    lemma_trim(path, path.len() as int);
    assert(path.take(path.len() as int) =~= path);
}

/// A name by itself lies in the root, and is its own last component. Where there is no name, the
/// copy is called "root".
pub proof fn law_lone_names(name: Seq<char>)
    requires
        forall|i: int| 0 <= i < name.len() ==> #[trigger] name[i] != '/',
    ensures
        parent_text(name) == seq!['/'],
        name.len() > 0 ==> base_text(name) == name,
        name.len() == 0 ==> base_text(name) == "root"@,
{
    lemma_no_slash(name);
    lemma_trim(name, name.len() as int);
    assert(name.take(name.len() as int) =~= name);
    assert(name.skip(0) =~= name);
}

proof fn lemma_no_slash(name: Seq<char>)
    requires
        forall|i: int| 0 <= i < name.len() ==> #[trigger] name[i] != '/',
    ensures
        last_slash(name) == -1,
    decreases name.len(),
{
    if name.len() > 0 {
        let t = name.drop_last();
        assert(name[name.len() - 1] != '/');
        assert forall|i: int| 0 <= i < t.len() implies #[trigger] t[i] != '/' by {
            assert(name[i] != '/');
        }
        lemma_no_slash(t);
    }
}

/// A name is joined to a directory with one slash between them, and its components come behind
/// those of the directory.
pub proof fn law_joined_paths(dir: Seq<char>, name: Seq<char>)
    ensures
        dir.len() == 0 || dir.last() != '/' ==> joined_text(dir, name) == dir + seq!['/'] + name,
        dir.len() > 0 && dir.last() == '/' ==> joined_text(dir, name) == dir + name,
        components(joined_text(dir, name)) == components(dir) + components(name),
{
    law_components_join(dir, name);
    assert(dir.push('/') + name =~= dir + seq!['/'] + name);
    if dir.len() > 0 && dir.last() == '/' {
        let d = dir.drop_last();
        assert(d.push('/') =~= dir);
        law_components_join(d, name);
        law_components_join(d, Seq::empty());
        assert(d.push('/') + Seq::<char>::empty() =~= dir);
        assert(components(d) + Seq::<Seq<char>>::empty() =~= components(d));
    }
}

/// How many of the characters are left when slashes are trimmed from the end.
pub(crate) fn trimmed_len(chars: &Vec<char>) -> (n: usize)
    ensures
        n <= chars@.len(),
        trim_slashes(chars@) == chars@.take(n as int),
{
    let mut n: usize = chars.len();
    while n > 0 && chars[n - 1] == '/'
        invariant
            n <= chars@.len(),
            forall|i: int| n <= i < chars@.len() ==> chars@[i] == '/',
        decreases n,
    {
        n = n - 1;
    }
    proof {
        lemma_trim(chars@, n as int);
    }
    n
}

/// The number of characters up to and with the last slash among the first `len`.
fn after_last_slash(chars: &Vec<char>, len: usize) -> (k: usize)
    requires
        len <= chars@.len(),
    ensures
        k <= len,
        k == last_slash(chars@.take(len as int)) + 1,
{
    let mut k: usize = len;
    while k > 0 && chars[k - 1] != '/'
        invariant
            k <= len <= chars@.len(),
            last_slash(chars@.take(len as int)) == last_slash(chars@.take(k as int)),
        decreases k,
    {
        assert(chars@.take(k as int).drop_last() =~= chars@.take(k - 1));
        k = k - 1;
    }
    k
}

/// The parent directory of a path inside the volume.
pub fn parent_of(path: &str) -> (s: String)
    ensures
        s@ == parent_text(path@),
{
    let chars = chars_of(path);
    let n: usize = trimmed_len(&chars);
    let k: usize = after_last_slash(&chars, n);
    if k <= 1 {
        let mut s = String::new();
        s.push('/');
        assert(s@ =~= seq!['/']);
        return s;
    }
    assert(chars@.subrange(0, k - 1) =~= chars@.take(n as int).take(k - 1));
    string_of(&chars, 0, k - 1)
}

/// The same, under the name that browsing code uses.
pub fn parent_path(path: &str) -> (s: String)
    ensures
        s@ == parent_text(path@),
{
    parent_of(path)
}

/// The name that a copy of `src_path` gets.
pub fn basename_of(src_path: &str) -> (s: String)
    ensures
        s@ == base_text(src_path@),
{
    let chars = chars_of(src_path);
    let n: usize = trimmed_len(&chars);
    if n == 0 {
        return "root".to_owned();
    }
    let k: usize = after_last_slash(&chars, n);
    assert(chars@.subrange(k as int, n as int) =~= chars@.take(n as int).skip(k as int));
    string_of(&chars, k, n)
}

/// Joins a path component onto a directory path.
pub fn join_path(dir: &str, name: &str) -> (s: String)
    ensures
        s@ == joined_text(dir@, name@),
{
    let chars = chars_of(dir);
    let mut s = dir.to_owned();
    if !(chars.len() > 0 && chars[chars.len() - 1] == '/') {
        s.push('/');
    }
    s.append(name);
    s
}

/// The same, under the name that browsing code uses.
pub fn join_fs_path(dir: &str, name: &str) -> (s: String)
    ensures
        s@ == joined_text(dir@, name@),
{
    join_path(dir, name)
}

/// How many absolute symbolic links may be followed one after the other.
pub const MAX_LINK_DEPTH: u32 = 40;

pub open spec fn too_many_links() -> Fault {
    Fault::Unsupported("too many levels of symbolic links"@)
}

/// `t` followed by the given components.
pub open spec fn with_tail(t: Seq<char>, rest: Seq<Seq<char>>) -> Seq<char>
    decreases rest.len(),
{
    if rest.len() == 0 {
        t
    } else {
        with_tail(t, rest.drop_last()).push('/') + rest.last()
    }
}

pub open spec fn is_absolute(t: Seq<char>) -> bool {
    t.len() > 0 && t[0] == '/'
}

/// Components that are put behind a path are taken after its own.
pub proof fn law_components_behind(t: Seq<char>, rest: Seq<Seq<char>>)
    requires
        forall|i: int|
            0 <= i < rest.len() ==> (#[trigger] rest[i]).len() > 0 && rest[i] != seq!['.']
                && !rest[i].contains('/'),
    ensures
        components(with_tail(t, rest)) == components(t) + rest,
    decreases rest.len(),
{
    if rest.len() > 0 {
        let r = rest.drop_last();
        assert forall|i: int| 0 <= i < r.len() implies (#[trigger] r[i]).len() > 0 && r[i] != seq![
            '.',
        ] && !r[i].contains('/') by {
            assert(rest[i].len() > 0);
        }
        law_components_behind(t, r);
        let last = rest[rest.len() - 1];
        assert(last.len() > 0);
        law_components_join(with_tail(t, r), last);
        assert forall|i: int| 0 <= i < last.len() implies #[trigger] last[i] != '/' by {
            if last[i] == '/' {
                assert(last.contains('/'));
            }
        }
        law_single_component(last);
        assert(components(t) + r + seq![last] =~= components(t) + rest);
    } else {
        assert(components(t) + rest =~= components(t));
    }
}

/// A path is absolute if a slash comes first.
pub proof fn law_absolute_paths(t: Seq<char>, c: char)
    ensures
        is_absolute(seq![c] + t) <==> c == '/',
        !is_absolute(Seq::empty()),
{
}

/// Where a single component leads.
pub enum Turn {
    Go(u32),
    /// To a symbolic link: its inode and its target.
    Link(u32, Seq<char>),
}

/// Takes the component `name` of `path` in the directory `cur`. Only the last component may
/// lead to something that is no directory.
pub open spec fn turn(
    v: VolumeView,
    path: Seq<char>,
    cur: u32,
    name: Seq<char>,
    last: bool,
) -> Outcome<Turn> {
    match inode_at(v, cur) {
        Err(e) => Err(e),
        Ok(d) => if name == ".."@ {
            match dir_lookup(v, d, ".."@) {
                Err(e) => Err(e),
                Ok(None) => Err(Fault::NotFound(".."@)),
                Ok(Some((parent, _))) => Ok(Turn::Go(parent)),
            }
        } else if !d.is_dir() {
            Err(Fault::NotDir(cur))
        } else {
            match dir_lookup(v, d, name) {
                Err(e) => Err(e),
                Ok(None) => Err(Fault::NotFound(path)),
                Ok(Some((ino, _))) => match inode_at(v, ino) {
                    Err(e) => Err(e),
                    Ok(inode) => if inode.is_symlink() {
                        match file_data(v, inode).end {
                            Err(e) => Err(e),
                            Ok(_) => Ok(Turn::Link(ino, lossy_text(file_data(v, inode).bytes))),
                        }
                    } else if !last && !inode.is_dir() {
                        Err(Fault::NotDir(ino))
                    } else {
                        Ok(Turn::Go(ino))
                    },
                },
            }
        },
    }
}

/// ".." leads to what the directory lists under that name.
pub proof fn law_going_up(v: VolumeView, path: Seq<char>, cur: u32, d: InodeView, last: bool)
    requires
        inode_at(v, cur) == Ok::<_, Fault>(d),
    ensures
        match dir_lookup(v, d, seq!['.', '.']) {
            Ok(Some((parent, _))) => turn(v, path, cur, seq!['.', '.'], last) == Ok::<_, Fault>(
                Turn::Go(parent),
            ),
            Ok(None) => turn(v, path, cur, seq!['.', '.'], last) == Err::<Turn, _>(
                Fault::NotFound(seq!['.', '.']),
            ),
            Err(e) => turn(v, path, cur, seq!['.', '.'], last) == Err::<Turn, _>(e),
        },
{
    reveal_strlit("..");
    assert(".."@ =~= seq!['.', '.']);
}

/// Any other name leads to what the directory lists under it: to the target of a symbolic link,
/// to a directory, or, where it is the last name, to anything else.
pub proof fn law_going_down(
    v: VolumeView,
    path: Seq<char>,
    cur: u32,
    name: Seq<char>,
    last: bool,
    ino: u32,
    ft: u8,
    n: InodeView,
)
    requires
        inode_at(v, cur) is Ok,
        inode_at(v, cur)->Ok_0.mode / 0x1000 == 4,
        name != seq!['.', '.'],
        dir_lookup(v, inode_at(v, cur)->Ok_0, name) == Ok::<_, Fault>(Some((ino, ft))),
        inode_at(v, ino) == Ok::<_, Fault>(n),
    ensures
        n.mode / 0x1000 == 10 && file_data(v, n).end is Ok ==> turn(v, path, cur, name, last) == Ok::<
            _,
            Fault,
        >(Turn::Link(ino, lossy_text(file_data(v, n).bytes))),
        n.mode / 0x1000 == 10 && file_data(v, n).end is Err ==> turn(v, path, cur, name, last)
            == Err::<Turn, _>(file_data(v, n).end->Err_0),
        n.mode / 0x1000 == 4 ==> turn(v, path, cur, name, last) == Ok::<_, Fault>(Turn::Go(ino)),
        n.mode / 0x1000 != 4 && n.mode / 0x1000 != 10 && last ==> turn(v, path, cur, name, last)
            == Ok::<_, Fault>(Turn::Go(ino)),
        n.mode / 0x1000 != 4 && n.mode / 0x1000 != 10 && !last ==> turn(v, path, cur, name, last)
            == Err::<Turn, _>(Fault::NotDir(ino)),
{
    reveal_strlit("..");
    assert(".."@ =~= seq!['.', '.']);
    law_kinds_of_files(n);
    law_kinds_of_files(inode_at(v, cur)->Ok_0);
}

/// A name that is not listed leads nowhere, and nothing lies below what is no directory.
pub proof fn law_going_nowhere(
    v: VolumeView,
    path: Seq<char>,
    cur: u32,
    d: InodeView,
    name: Seq<char>,
    last: bool,
)
    requires
        inode_at(v, cur) == Ok::<_, Fault>(d),
        name != seq!['.', '.'],
    ensures
        d.mode / 0x1000 != 4 ==> turn(v, path, cur, name, last) == Err::<Turn, _>(
            Fault::NotDir(cur),
        ),
        d.mode / 0x1000 == 4 && dir_lookup(v, d, name) == Ok::<_, Fault>(None::<(u32, u8)>) ==> turn(
            v,
            path,
            cur,
            name,
            last,
        ) == Err::<Turn, _>(Fault::NotFound(path)),
        d.mode / 0x1000 == 4 && dir_lookup(v, d, name) is Err ==> turn(v, path, cur, name, last)
            == Err::<Turn, _>(dir_lookup(v, d, name)->Err_0),
{
    reveal_strlit("..");
    assert(".."@ =~= seq!['.', '.']);
    law_kinds_of_files(d);
}

/// What stands for a link in a directory.
pub open spec fn link_key(dir: u32, link: u32) -> u64 {
    (dir * 0x1_0000_0000 + link) as u64
}

/// How many links are not among the open ones.
pub open spec fn unopened(open: Seq<u64>) -> nat {
    set_int_range(0, 0x1_0000_0000_0000_0000).difference(
        open.map_values(|k: u64| k as int).to_set(),
    ).len()
}

/// Opening one more link leaves fewer unopened.
pub proof fn lemma_opening(open: Seq<u64>, key: u64)
    requires
        !open.contains(key),
    ensures
        unopened(open.push(key)) < unopened(open),
{
    let all = set_int_range(0, 0x1_0000_0000_0000_0000);
    let before = open.map_values(|k: u64| k as int);
    let after = open.push(key).map_values(|k: u64| k as int);
    lemma_int_range(0, 0x1_0000_0000_0000_0000);
    assert(after =~= before.push(key as int));
    assert forall|k: int| #[trigger] after.to_set().contains(k) == (before.to_set().contains(k)
        || k == key) by {
        if before.to_set().contains(k) {
            let j = choose|j: int| 0 <= j < before.len() && before[j] == k;
            assert(after[j] == k);
        }
        assert(after[before.len() as int] == key);
    }
    assert(!before.to_set().contains(key as int)) by {
        if before.contains(key as int) {
            let j = choose|j: int| 0 <= j < before.len() && before[j] == key;
            assert(open[j] == key);
        }
    }
    let left = all.difference(before.to_set());
    assert(all.difference(after.to_set()) =~= left.remove(key as int));
    assert(left.contains(key as int));
    vstd::set_lib::lemma_set_subset_finite(all, left);
}

/// How far a walk has come.
pub enum Reached {
    /// All components have been taken; the walk may go on from here.
    At(u32),
    /// An absolute link was followed, with all that lay behind it.
    Through(u32),
}

impl Reached {
    pub open spec fn inode(self) -> u32 {
        match self {
            Reached::At(n) => n,
            Reached::Through(n) => n,
        }
    }
}

/// Takes the components of `path` in turn, starting in the directory `cur`; the components
/// `behind` are to be taken after them. An absolute link starts over at the root, one level
/// deeper, with everything that is left behind its target. The components of a relative
/// link's target are taken in the directory of the link, which stays open meanwhile: one that
/// is met again while it is open would go round in circles for ever.
pub open spec fn walk_path(
    v: VolumeView,
    path: Seq<char>,
    depth: int,
    open: Seq<u64>,
    comps: Seq<Seq<char>>,
    cur: u32,
    behind: Seq<Seq<char>>,
) -> Outcome<Reached>
    decreases MAX_LINK_DEPTH + 1 - depth, unopened(open), comps.len(),
{
    if comps.len() == 0 {
        Ok(Reached::At(cur))
    } else {
        let rest = comps.skip(1);
        match turn(v, path, cur, comps[0], (rest + behind).len() == 0) {
            Err(e) => Err(e),
            Ok(Turn::Go(next)) => walk_path(v, path, depth, open, rest, next, behind),
            Ok(Turn::Link(ino, target)) => if is_absolute(target) {
                if depth > MAX_LINK_DEPTH {
                    Err(too_many_links())
                } else {
                    match resolved_below(v, with_tail(target, rest + behind), depth + 1) {
                        Err(e) => Err(e),
                        Ok(n) => Ok(Reached::Through(n)),
                    }
                }
            } else if open.contains(link_key(cur, ino)) {
                Err(too_many_links())
            } else {
                proof {
                    lemma_opening(open, link_key(cur, ino));
                }
                match walk_path(
                    v,
                    path,
                    depth,
                    open.push(link_key(cur, ino)),
                    components(target),
                    cur,
                    rest + behind,
                ) {
                    Ok(Reached::At(n)) => walk_path(v, path, depth, open, rest, n, behind),
                    other => other,
                }
            },
        }
    }
}

/// The inode that `path` leads to from the root when `depth` absolute links have been followed
/// to come to it.
pub open spec fn resolved_below(v: VolumeView, path: Seq<char>, depth: int) -> Outcome<u32>
    decreases MAX_LINK_DEPTH + 1 - depth, unopened(Seq::empty()) + 1, 0int,
{
    if depth > MAX_LINK_DEPTH {
        Err(too_many_links())
    } else {
        match walk_path(
            v,
            path,
            depth,
            Seq::empty(),
            components(path),
            EXT4_ROOT_INO,
            Seq::empty(),
        ) {
            Err(e) => Err(e),
            Ok(reached) => Ok(reached.inode()),
        }
    }
}

/// The inode that `path` leads to from the root, all symbolic links followed.
pub open spec fn resolved(v: VolumeView, path: Seq<char>) -> Outcome<u32> {
    resolved_below(v, path, 0)
}

proof fn lemma_turn_settled(
    v: VolumeView,
    w: VolumeView,
    path: Seq<char>,
    cur: u32,
    name: Seq<char>,
    last: bool,
)
    requires
        v.grows_to(w),
    ensures
        settled(v, turn(v, path, cur, name, last), turn(w, path, cur, name, last)),
{
    law_inode_settled(v, w, cur);
    if let Ok(d) = inode_at(v, cur) {
        law_lookup_settled(v, w, d, name);
        if let Ok(Some((ino, _))) = dir_lookup(v, d, name) {
            law_inode_settled(v, w, ino);
            if let Ok(inode) = inode_at(v, ino) {
                law_data_settled(v, w, inode);
            }
        }
    }
}

proof fn lemma_walk_settled(
    v: VolumeView,
    w: VolumeView,
    path: Seq<char>,
    depth: int,
    open: Seq<u64>,
    comps: Seq<Seq<char>>,
    cur: u32,
    behind: Seq<Seq<char>>,
)
    requires
        v.grows_to(w),
    ensures
        settled(
            v,
            walk_path(v, path, depth, open, comps, cur, behind),
            walk_path(w, path, depth, open, comps, cur, behind),
        ),
    decreases MAX_LINK_DEPTH + 1 - depth, unopened(open), comps.len(),
{
    if comps.len() > 0 {
        let rest = comps.skip(1);
        let last = (rest + behind).len() == 0;
        lemma_turn_settled(v, w, path, cur, comps[0], last);
        match turn(v, path, cur, comps[0], last) {
            Err(_) => {},
            Ok(Turn::Go(next)) => lemma_walk_settled(v, w, path, depth, open, rest, next, behind),
            Ok(Turn::Link(ino, target)) => {
                let key = link_key(cur, ino);
                if is_absolute(target) {
                    if depth <= MAX_LINK_DEPTH {
                        lemma_below_settled(v, w, with_tail(target, rest + behind), depth + 1);
                    }
                } else if !open.contains(key) {
                    lemma_opening(open, key);
                    let more = open.push(key);
                    let all = rest + behind;
                    let inner = components(target);
                    lemma_walk_settled(v, w, path, depth, more, inner, cur, all);
                    if let Ok(Reached::At(n)) = walk_path(v, path, depth, more, inner, cur, all) {
                        lemma_walk_settled(v, w, path, depth, open, rest, n, behind);
                    }
                }
            },
        }
    }
}

proof fn lemma_below_settled(v: VolumeView, w: VolumeView, path: Seq<char>, depth: int)
    requires
        v.grows_to(w),
    ensures
        settled(v, resolved_below(v, path, depth), resolved_below(w, path, depth)),
    decreases MAX_LINK_DEPTH + 1 - depth, unopened(Seq::empty()) + 1, 0int,
{
    if depth <= MAX_LINK_DEPTH {
        lemma_walk_settled(
            v,
            w,
            path,
            depth,
            Seq::empty(),
            components(path),
            EXT4_ROOT_INO,
            Seq::empty(),
        );
    }
}

/// Where a path leads is settled: unless a block is missing, the answer stays whatever else
/// is supplied, so that it is the answer for the complete volume.
pub proof fn law_resolved_settled(v: VolumeView, w: VolumeView, path: Seq<char>)
    requires
        v.grows_to(w),
    ensures
        settled(v, resolved(v, path), resolved(w, path)),
{
    lemma_below_settled(v, w, path, 0);
}

proof fn lemma_walk_alike(
    v: VolumeView,
    p: Seq<char>,
    q: Seq<char>,
    depth: int,
    open: Seq<u64>,
    comps: Seq<Seq<char>>,
    cur: u32,
    behind: Seq<Seq<char>>,
)
    ensures
        walk_path(v, p, depth, open, comps, cur, behind) is Ok ==> walk_path(
            v,
            q,
            depth,
            open,
            comps,
            cur,
            behind,
        ) == walk_path(v, p, depth, open, comps, cur, behind),
    decreases unopened(open), comps.len(),
{
    if comps.len() > 0 {
        let rest = comps.skip(1);
        match turn(v, p, cur, comps[0], (rest + behind).len() == 0) {
            Err(_) => {},
            Ok(Turn::Go(next)) => lemma_walk_alike(v, p, q, depth, open, rest, next, behind),
            Ok(Turn::Link(ino, target)) => {
                let key = link_key(cur, ino);
                if !is_absolute(target) && !open.contains(key) {
                    lemma_opening(open, key);
                    let more = open.push(key);
                    let all = rest + behind;
                    let inner = components(target);
                    lemma_walk_alike(v, p, q, depth, more, inner, cur, all);
                    if let Ok(Reached::At(n)) = walk_path(v, p, depth, more, inner, cur, all) {
                        lemma_walk_alike(v, p, q, depth, open, rest, n, behind);
                    }
                }
            },
        }
    }
}

/// Paths with the same components lead to the same inode.
pub proof fn law_same_components_lead_alike(
    v: VolumeView,
    p: Seq<char>,
    q: Seq<char>,
    depth: int,
)
    requires
        components(p) == components(q),
        resolved_below(v, p, depth) is Ok,
    ensures
        resolved_below(v, q, depth) == resolved_below(v, p, depth),
{
    lemma_walk_alike(
        v,
        p,
        q,
        depth,
        Seq::empty(),
        components(p),
        EXT4_ROOT_INO,
        Seq::empty(),
    );
}

/// A path without components leads to the root, unless too many absolute links lead to it;
/// then no path leads anywhere.
pub proof fn law_bare_path_is_the_root(v: VolumeView, path: Seq<char>, depth: int)
    ensures
        depth <= MAX_LINK_DEPTH && components(path).len() == 0 ==> resolved_below(v, path, depth)
            == Ok::<_, Fault>(EXT4_ROOT_INO),
        depth > MAX_LINK_DEPTH ==> resolved_below(v, path, depth) == Err::<u32, _>(
            too_many_links(),
        ),
{
}

pub(crate) fn starts_with_slash(t: &str) -> (b: bool)
    ensures
        b == is_absolute(t@),
{
    let chars = chars_of(t);
    chars.len() > 0 && chars[0] == '/'
}

/// The path that an absolute link's target makes together with the components from index
/// `from` on.
pub fn append_tail(t: &str, comps: &Vec<String>, from: usize) -> (full: String)
    requires
        from <= comps@.len(),
    ensures
        full@ == with_tail(t@, texts(comps@).skip(from as int)),
{
    let mut full = t.to_owned();
    let ghost rest = texts(comps@).skip(from as int);
    let mut j: usize = from;
    assert(rest.take(0) =~= Seq::<Seq<char>>::empty());
    while j < comps.len()
        invariant
            from <= j <= comps@.len(),
            rest == texts(comps@).skip(from as int),
            full@ == with_tail(t@, rest.take(j - from)),
        decreases comps@.len() - j,
    {
        full.push('/');
        full.append(comps[j].as_str());
        proof {
            let next = rest.take(j + 1 - from);
            assert(next.drop_last() =~= rest.take(j - from));
            assert(next.last() == comps@[j as int]@);
        }
        j = j + 1;
    }
    assert(rest.take(j - from) =~= rest);
    full
}

/// The components of a relative link's target, with the components from index `from` on
/// behind them.
pub fn splice(target: &str, comps: &Vec<String>, from: usize) -> (out: Vec<String>)
    requires
        from <= comps@.len(),
    ensures
        texts(out@) == components(target@) + texts(comps@).skip(from as int),
{
    let mut out = path_components(target);
    let ghost rest = texts(comps@).skip(from as int);
    let mut j: usize = from;
    assert(texts(out@) =~= components(target@) + rest.take(0));
    while j < comps.len()
        invariant
            from <= j <= comps@.len(),
            rest == texts(comps@).skip(from as int),
            texts(out@) == components(target@) + rest.take(j - from),
        decreases comps@.len() - j,
    {
        let ghost sofar = out@;
        out.push(comps[j].clone());
        assert(texts(out@) =~= texts(sofar).push(comps@[j as int]@));
        assert(rest.take(j + 1 - from) =~= rest.take(j - from).push(comps@[j as int]@));
        j = j + 1;
    }
    assert(rest.take(j - from) =~= rest);
    out
}

/// A relative link whose target is being gone through.
struct OpenLink {
    key: u64,
    /// How many components are to be taken after those of its target.
    behind: usize,
}

spec fn open_keys(open: Seq<OpenLink>) -> Seq<u64> {
    Seq::new(open.len(), |i: int| open[i].key)
}

/// A link that is open, and the components that come after those of its target on its own
/// level.
struct Frame {
    key: u64,
    rest: Seq<Seq<char>>,
}

spec fn frame_keys(frames: Seq<Frame>) -> Seq<u64> {
    Seq::new(frames.len(), |i: int| frames[i].key)
}

/// All components that come after the targets of the open links, the innermost first.
spec fn all_behind(frames: Seq<Frame>) -> Seq<Seq<char>>
    decreases frames.len(),
{
    if frames.len() == 0 {
        Seq::empty()
    } else {
        frames.last().rest + all_behind(frames.drop_last())
    }
}

/// A walk of `path` on the level of `depth` absolute links.
struct Walk {
    v: VolumeView,
    path: Seq<char>,
    depth: int,
}

impl Walk {
    /// Takes `comps` inside the open links.
    spec fn taken(self, frames: Seq<Frame>, comps: Seq<Seq<char>>, cur: u32) -> Outcome<Reached> {
        walk_path(
            self.v,
            self.path,
            self.depth,
            frame_keys(frames),
            comps,
            cur,
            all_behind(frames),
        )
    }

    /// What the whole walk comes to when the target of the innermost open link has come to
    /// `r`.
    spec fn resumed(self, frames: Seq<Frame>, r: Outcome<Reached>) -> Outcome<u32>
        decreases frames.len(),
    {
        match r {
            Err(e) => Err(e),
            Ok(Reached::Through(n)) => Ok(n),
            Ok(Reached::At(n)) => if frames.len() == 0 {
                Ok(n)
            } else {
                let outer = frames.drop_last();
                self.resumed(outer, self.taken(outer, frames.last().rest, n))
            },
        }
    }

    /// How many turns it takes to go through `comps`, and the targets of the links on the way.
    spec fn turns(
        self,
        open: Seq<u64>,
        comps: Seq<Seq<char>>,
        cur: u32,
        behind: Seq<Seq<char>>,
    ) -> nat
        decreases unopened(open), comps.len(),
    {
        if comps.len() == 0 {
            0
        } else {
            let rest = comps.skip(1);
            match turn(self.v, self.path, cur, comps[0], (rest + behind).len() == 0) {
                Err(_) => 1,
                Ok(Turn::Go(next)) => 1 + self.turns(open, rest, next, behind),
                Ok(Turn::Link(ino, target)) => if is_absolute(target) || open.contains(
                    link_key(cur, ino),
                ) {
                    1
                } else {
                    proof {
                        lemma_opening(open, link_key(cur, ino));
                    }
                    let more = open.push(link_key(cur, ino));
                    let inner = components(target);
                    1 + self.turns(more, inner, cur, rest + behind) + match walk_path(
                        self.v,
                        self.path,
                        self.depth,
                        more,
                        inner,
                        cur,
                        rest + behind,
                    ) {
                        Ok(Reached::At(n)) => 1 + self.turns(open, rest, n, behind),
                        _ => 0,
                    }
                },
            }
        }
    }

    spec fn turns_inside(self, frames: Seq<Frame>, comps: Seq<Seq<char>>, cur: u32) -> nat {
        self.turns(frame_keys(frames), comps, cur, all_behind(frames))
    }

    /// How many turns are left when the target of the innermost open link has come to `r`.
    spec fn turns_after(self, frames: Seq<Frame>, r: Outcome<Reached>) -> nat
        decreases frames.len(),
    {
        match r {
            Ok(Reached::At(n)) => if frames.len() == 0 {
                0
            } else {
                let outer = frames.drop_last();
                let rest = frames.last().rest;
                1 + self.turns_inside(outer, rest, n) + self.turns_after(
                    outer,
                    self.taken(outer, rest, n),
                )
            },
            _ => 0,
        }
    }

    /// What the walk comes to that is to take `comps` next.
    #[verifier::opaque]
    spec fn end(self, frames: Seq<Frame>, comps: Seq<Seq<char>>, cur: u32) -> Outcome<u32> {
        self.resumed(frames, self.taken(frames, comps, cur))
    }

    #[verifier::opaque]
    spec fn turns_left(self, frames: Seq<Frame>, comps: Seq<Seq<char>>, cur: u32) -> nat {
        self.turns_inside(frames, comps, cur) + self.turns_after(
            frames,
            self.taken(frames, comps, cur),
        )
    }

    /// The first of the components, inside the open links.
    spec fn first(self, frames: Seq<Frame>, comps: Seq<Seq<char>>, cur: u32) -> Outcome<Turn> {
        turn(
            self.v,
            self.path,
            cur,
            comps[0],
            (comps.skip(1) + all_behind(frames)).len() == 0,
        )
    }

    /// The path begins with all of its components and no open link.
    proof fn lemma_start(self, frames: Seq<Frame>)
        requires
            frames.len() == 0,
            self.depth <= MAX_LINK_DEPTH,
        ensures
            self.end(frames, components(self.path), EXT4_ROOT_INO) == resolved_below(
                self.v,
                self.path,
                self.depth,
            ),
    {
        reveal(Walk::end);
        assert(frame_keys(frames) =~= Seq::empty());
    }

    /// Where nothing is left to be taken the walk is over.
    proof fn lemma_done(self, frames: Seq<Frame>, comps: Seq<Seq<char>>, cur: u32)
        requires
            frames.len() == 0,
            comps.len() == 0,
        ensures
            self.end(frames, comps, cur) == Ok::<_, Fault>(cur),
    {
        reveal(Walk::end);
    }

    /// At the end of a link's target the walk goes on behind the link, which is closed.
    proof fn lemma_close(self, frames: Seq<Frame>, comps: Seq<Seq<char>>, cur: u32)
        requires
            frames.len() > 0,
            comps.len() == 0,
        ensures
            self.end(frames.drop_last(), frames.last().rest, cur) == self.end(frames, comps, cur),
            self.turns_left(frames.drop_last(), frames.last().rest, cur) < self.turns_left(
                frames,
                comps,
                cur,
            ),
    {
        reveal(Walk::end);
        reveal(Walk::turns_left);
    }

    /// What taking the first component comes to.
    proof fn lemma_take(self, frames: Seq<Frame>, comps: Seq<Seq<char>>, cur: u32)
        requires
            comps.len() > 0,
            self.depth <= MAX_LINK_DEPTH,
        ensures
            match self.first(frames, comps, cur) {
                Err(e) => self.end(frames, comps, cur) == Err::<u32, _>(e),
                Ok(Turn::Go(next)) => self.end(frames, comps.skip(1), next) == self.end(
                    frames,
                    comps,
                    cur,
                ) && self.turns_left(frames, comps.skip(1), next) < self.turns_left(
                    frames,
                    comps,
                    cur,
                ),
                Ok(Turn::Link(ino, target)) => if is_absolute(target) {
                    self.end(frames, comps, cur) == resolved_below(
                        self.v,
                        with_tail(target, comps.skip(1) + all_behind(frames)),
                        self.depth + 1,
                    )
                } else {
                    frame_keys(frames).contains(link_key(cur, ino)) ==> self.end(
                        frames,
                        comps,
                        cur,
                    ) == Err::<u32, _>(too_many_links())
                },
            },
    {
        reveal(Walk::end);
        reveal(Walk::turns_left);
    }

    /// Following a relative link opens it.
    proof fn lemma_link(
        self,
        frames: Seq<Frame>,
        comps: Seq<Seq<char>>,
        cur: u32,
        ino: u32,
        target: Seq<char>,
    )
        requires
            comps.len() > 0,
            self.first(frames, comps, cur) == Ok::<_, Fault>(Turn::Link(ino, target)),
            !is_absolute(target),
            !frame_keys(frames).contains(link_key(cur, ino)),
        ensures
            ({
                let deeper = frames.push(Frame { key: link_key(cur, ino), rest: comps.skip(1) });
                let inner = components(target);
                &&& all_behind(deeper) == comps.skip(1) + all_behind(frames)
                &&& self.end(deeper, inner, cur) == self.end(frames, comps, cur)
                &&& self.turns_left(deeper, inner, cur) < self.turns_left(frames, comps, cur)
            }),
    {
        reveal(Walk::end);
        reveal(Walk::turns_left);
        let f = Frame { key: link_key(cur, ino), rest: comps.skip(1) };
        let deeper = frames.push(f);
        assert(deeper.drop_last() =~= frames);
        assert(frame_keys(deeper) =~= frame_keys(frames).push(f.key));
    }
}

/// Whether `open` keeps what is needed of the open links.
#[verifier::opaque]
spec fn keeps(open: Seq<OpenLink>, frames: Seq<Frame>) -> bool {
    &&& open.len() == frames.len()
    &&& forall|k: int|
        0 <= k < frames.len() ==> (#[trigger] open[k]).key == frames[k].key && open[k].behind
            == all_behind(frames.take(k + 1)).len()
}

proof fn lemma_kept(open: Seq<OpenLink>, frames: Seq<Frame>)
    requires
        keeps(open, frames),
    ensures
        open.len() == frames.len(),
        open_keys(open) == frame_keys(frames),
        open.len() > 0 ==> open.last().behind == all_behind(frames).len(),
        open.len() > 0 ==> keeps(open.drop_last(), frames.drop_last()),
{
    reveal(keeps);
    assert(open_keys(open) =~= frame_keys(frames));
    if open.len() > 0 {
        assert(frames.take(frames.len() as int) =~= frames);
        let outer = frames.drop_last();
        assert forall|k: int| 0 <= k < outer.len() implies (#[trigger] open.drop_last()[k]).key
            == outer[k].key && open.drop_last()[k].behind == all_behind(
            outer.take(k + 1),
        ).len() by {
            assert(open.drop_last()[k] == open[k]);
            assert(outer.take(k + 1) =~= frames.take(k + 1));
        }
    }
}

proof fn lemma_keep(open: Seq<OpenLink>, frames: Seq<Frame>, link: OpenLink, f: Frame)
    requires
        keeps(open, frames),
        link.key == f.key,
        link.behind == all_behind(frames.push(f)).len(),
    ensures
        keeps(open.push(link), frames.push(f)),
{
    reveal(keeps);
    let deeper = frames.push(f);
    assert(deeper.take(deeper.len() as int) =~= deeper);
    assert forall|k: int| 0 <= k < deeper.len() implies (#[trigger] open.push(link)[k]).key
        == deeper[k].key && open.push(link)[k].behind == all_behind(deeper.take(k + 1)).len() by {
        if k < frames.len() {
            assert(open.push(link)[k] == open[k]);
            assert(deeper.take(k + 1) =~= frames.take(k + 1));
        }
    }
}

/// Whether the link `key` is open.
fn is_open(open: &Vec<OpenLink>, key: u64) -> (b: bool)
    ensures
        b == open_keys(open@).contains(key),
{
    let mut i: usize = 0;
    while i < open.len()
        invariant
            i <= open@.len(),
            forall|k: int| 0 <= k < i ==> open@[k].key != key,
        decreases open@.len() - i,
    {
        if open[i].key == key {
            assert(open_keys(open@)[i as int] == key);
            return true;
        }
        i = i + 1;
    }
    false
}

/// Where a single component leads.
enum Step {
    Go(u32),
    /// To a symbolic link: its inode and its target.
    Link(u32, String),
}

impl View for Step {
    type V = Turn;

    closed spec fn view(&self) -> Turn {
        match *self {
            Step::Go(n) => Turn::Go(n),
            Step::Link(ino, target) => Turn::Link(ino, target@),
        }
    }
}

impl Ext4 {
    /// Resolves an absolute path to an inode number, following symlinks.
    pub fn resolve(&self, path: &str) -> (r: Result<u32>)
        requires
            self.wf(),
        ensures
            outcome(r) == resolved(self@, path@),
    {
        self.resolve_inner(path, 0)
    }

    /// Takes one component of a path.
    fn take_turn(&self, path: &str, cur: u32, name: &String, last: bool) -> (r: Result<Step>)
        requires
            self.wf(),
        ensures
            match r {
                Ok(step) => turn(self@, path@, cur, name@, last) == Ok::<_, Fault>(step@),
                Err(e) => turn(self@, path@, cur, name@, last) == Err::<Turn, _>(e@),
            },
    {
        let d = self.read_inode(cur)?;
        let dotdot = "..".to_owned();
        if *name == dotdot {
            return match self.lookup_dir(&d, "..")? {
                None => Err(ExtError::NotFound(dotdot)),
                Some((parent, _)) => Ok(Step::Go(parent)),
            };
        }
        if !d.is_dir() {
            return Err(ExtError::NotDir(cur));
        }
        let ino: u32 = match self.lookup_dir(&d, name.as_str())? {
            Some((ino, _)) => ino,
            None => {
                return Err(ExtError::NotFound(path.to_owned()));
            },
        };
        let inode = self.read_inode(ino)?;
        if inode.is_symlink() {
            let mut data: Vec<u8> = Vec::new();
            self.read_inode_data(&inode, &mut data)?;
            assert(data@ =~= file_data(self@, inode@).bytes);
            return Ok(Step::Link(ino, from_utf8_lossy(data.as_slice())));
        }
        if !last && !inode.is_dir() {
            return Err(ExtError::NotDir(ino));
        }
        Ok(Step::Go(ino))
    }

    #[verifier::rlimit(40)]
    fn resolve_inner(&self, path: &str, depth: u32) -> (r: Result<u32>)
        requires
            self.wf(),
        ensures
            outcome(r) == resolved_below(self@, path@, depth as int),
        decreases MAX_LINK_DEPTH + 1 - depth,
    {
        if depth > MAX_LINK_DEPTH {
            return Err(unsupported("too many levels of symbolic links"));
        }
        let mut comps = path_components(path);
        let mut i: usize = 0;
        let mut cur: u32 = EXT4_ROOT_INO;
        let mut open: Vec<OpenLink> = Vec::new();
        let ghost walk = Walk { v: self@, path: path@, depth: depth as int };
        let ghost all = resolved_below(self@, path@, depth as int);
        let ghost mut frames: Seq<Frame> = Seq::empty();
        let ghost mut here = components(path@);
        proof {
            reveal(keeps);
            walk.lemma_start(frames);
            assert(texts(comps@).skip(0) =~= here + all_behind(frames));
        }
        while i < comps.len() || open.len() > 0
            invariant
                self.wf(),
                depth <= MAX_LINK_DEPTH,
                walk == (Walk { v: self@, path: path@, depth: depth as int }),
                all == resolved_below(self@, path@, depth as int),
                i <= comps@.len(),
                texts(comps@).skip(i as int) == here + all_behind(frames),
                keeps(open@, frames),
                all == walk.end(frames, here, cur),
            decreases walk.turns_left(frames, here, cur),
        {
            let left: usize = comps.len() - i;
            let n: usize = open.len();
            proof {
                lemma_kept(open@, frames);
                assert(left == (here + all_behind(frames)).len());
            }
            if n > 0 && open[n - 1].behind == left {
                let ghost before = open@;
                let _ = open.pop();
                proof {
                    assert(open@ =~= before.drop_last());
                    walk.lemma_close(frames, here, cur);
                    assert(here + all_behind(frames) =~= frames.last().rest + all_behind(
                        frames.drop_last(),
                    ));
                    here = frames.last().rest;
                    frames = frames.drop_last();
                }
                continue;
            }
            let ghost rest = here.skip(1);
            proof {
                assert(here.len() > 0);
                assert((here + all_behind(frames))[0] == here[0]);
                assert(texts(comps@).skip(i as int)[0] == comps@[i as int]@);
                assert(texts(comps@).skip(i + 1) =~= texts(comps@).skip(i as int).skip(1));
                assert((here + all_behind(frames)).skip(1) =~= rest + all_behind(frames));
                walk.lemma_take(frames, here, cur);
            }
            match self.take_turn(path, cur, &comps[i], left == 1)? {
                Step::Go(next) => {
                    cur = next;
                    i = i + 1;
                    proof {
                        here = rest;
                    }
                },
                Step::Link(ino, target) => {
                    if starts_with_slash(target.as_str()) {
                        let full = append_tail(target.as_str(), &comps, i + 1);
                        return self.resolve_inner(full.as_str(), depth + 1);
                    }
                    let key: u64 = cur as u64 * 0x1_0000_0000 + ino as u64;
                    if is_open(&open, key) {
                        return Err(unsupported("too many levels of symbolic links"));
                    }
                    let link = OpenLink { key, behind: left - 1 };
                    proof {
                        let f = Frame { key, rest };
                        walk.lemma_link(frames, here, cur, ino, target@);
                        lemma_keep(open@, frames, link, f);
                        frames = frames.push(f);
                        here = components(target@);
                    }
                    comps = splice(target.as_str(), &comps, i + 1);
                    open.push(link);
                    i = 0;
                    assert(texts(comps@).skip(0) =~= texts(comps@));
                },
            }
        }
        proof {
            lemma_kept(open@, frames);
            walk.lemma_done(frames, here, cur);
        }
        Ok(cur)
    }
}

} // verus!
