//! Text helpers: numbers in a radix, lossy decoding, splitting and comparison.

use vstd::prelude::*;

verus! {

/// `String::push` appends one character at the end.
pub assume_specification[ String::push ](s: &mut String, c: char)
    ensures
        final(s)@ == old(s)@.push(c),
;

/// The text that `String::from_utf8_lossy` makes of a byte sequence.
pub uninterp spec fn utf8_lossy(bytes: Seq<u8>) -> Seq<char>;

/// Calls `String::from_utf8_lossy`. The result depends on the bytes alone, and bytes that
/// are valid UTF-8 decode to exactly the text they encode. What stands for an invalid
/// sequence is left to the name.
#[verifier::external_body]
pub(crate) fn from_utf8_lossy(bytes: &[u8]) -> (s: String)
    ensures
        s@ == utf8_lossy(bytes@),
        vstd::utf8::valid_utf8(bytes@) ==> s@ == vstd::utf8::decode_utf8(bytes@),
{
    String::from_utf8_lossy(bytes).into_owned()
}

/// The text that bytes are shown as: what they encode where they are valid UTF-8, else what
/// lossy decoding makes of them.
pub open spec fn lossy_text(bytes: Seq<u8>) -> Seq<char> {
    if vstd::utf8::valid_utf8(bytes) {
        vstd::utf8::decode_utf8(bytes)
    } else {
        utf8_lossy(bytes)
    }
}

pub open spec fn is_surrogate(unit: u16) -> bool {
    0xD800 <= unit <= 0xDFFF
}

/// The scalar value that a high and a low surrogate stand for together.
pub open spec fn surrogate_pair(high: u16, low: u16) -> char {
    (0x10000 + (high - 0xD800) * 0x400 + (low - 0xDC00)) as char
}

/// UTF-16 decoding in which every unpaired surrogate becomes U+FFFD.
pub open spec fn utf16_text(units: Seq<u16>) -> Seq<char>
    decreases units.len(),
{
    if units.len() == 0 {
        Seq::empty()
    } else if !is_surrogate(units[0]) {
        seq![units[0] as char] + utf16_text(units.skip(1))
    } else if units[0] < 0xDC00 && units.len() > 1 && 0xDC00 <= units[1] <= 0xDFFF {
        seq![surrogate_pair(units[0], units[1])] + utf16_text(units.skip(2))
    } else {
        seq!['\u{FFFD}'] + utf16_text(units.skip(1))
    }
}

/// Calls `String::from_utf16_lossy`: surrogate pairs are combined, and invalid data is
/// replaced by the replacement character U+FFFD.
#[verifier::external_body]
pub(crate) fn from_utf16_lossy(units: &Vec<u16>) -> (s: String)
    ensures
        s@ == utf16_text(units@),
{
    String::from_utf16_lossy(units)
}

/// The digit for `d` in a radix up to sixteen, in lower case.
pub open spec fn digit_char(d: nat) -> char {
    if d < 10 {
        (48 + d) as char
    } else {
        (87 + d) as char
    }
}

/// `n` written in `base`, padded with zeros to at least `width` digits.
pub open spec fn radix(n: nat, base: nat, width: nat) -> Seq<char>
    decreases n + width,
{
    if base < 2 {
        Seq::empty()
    } else if n < base && width <= 1 {
        seq![digit_char(n)]
    } else {
        proof {
            assert(n / base <= n && (n >= base ==> n / base < n)) by (nonlinear_arith)
                requires
                    base >= 2,
            ;
            assert(n < base ==> n / base == 0) by (nonlinear_arith)
                requires
                    base >= 2,
            ;
        }
        radix(
            n / base,
            base,
            if width > 0 {
                (width - 1) as nat
            } else {
                0
            },
        ).push(digit_char(n % base))
    }
}

pub open spec fn decimal(n: nat) -> Seq<char> {
    radix(n, 10, 1)
}

/// What a digit stands for.
pub open spec fn digit_value(c: char) -> int {
    if '0' <= c <= '9' {
        c as int - '0' as int
    } else {
        c as int - 'a' as int + 10
    }
}

/// Whether `c` is a digit of a radix up to sixteen, in lower case.
pub open spec fn is_digit_of(c: char, base: nat) -> bool {
    ('0' <= c <= '9' || 'a' <= c <= 'f') && digit_value(c) < base
}

/// The number that a row of digits writes.
pub open spec fn value(s: Seq<char>, base: nat) -> int
    decreases s.len(),
{
    if s.len() == 0 {
        0
    } else {
        value(s.drop_last(), base) * base + digit_value(s.last())
    }
}

/// A number is written in digits that read back as the number, as many as are asked for, and
/// more, of which the first is not zero, only where it takes more.
pub proof fn law_written_numbers_read_back(n: nat, base: nat, width: nat)
    requires
        2 <= base <= 16,
    ensures
        ({
            let s = radix(n, base, width);
            &&& value(s, base) == n
            &&& forall|i: int| 0 <= i < s.len() ==> is_digit_of(#[trigger] s[i], base)
            &&& s.len() >= width
            &&& s.len() >= 1
            &&& s.len() > width && s.len() > 1 ==> s[0] != '0'
        }),
    decreases n + width,
{
    if n < base && width <= 1 {
        let s = radix(n, base, width);
        assert(s.drop_last() =~= Seq::empty());
        assert(value(s.drop_last(), base) == 0);
        assert(0 * base == 0);
    } else {
        let narrower = if width > 0 {
            (width - 1) as nat
        } else {
            0
        };
        vstd::arithmetic::div_mod::lemma_fundamental_div_mod(n as int, base as int);
        assert(n / base <= n && (n >= base ==> 1 <= n / base < n) && (n < base ==> n / base == 0))
            by (nonlinear_arith)
            requires
                base >= 2,
        ;
        law_written_numbers_read_back(n / base, base, narrower);
        let t = radix(n / base, base, narrower);
        let s = radix(n, base, width);
        assert(s.drop_last() =~= t);
        assert((n / base) * base == base * (n / base)) by (nonlinear_arith);
        if s.len() > width && s.len() > 1 && t.len() == 1 {
            assert(t.drop_last() =~= Seq::empty());
            assert(value(t.drop_last(), base) == 0);
            assert(0 * base == 0);
            assert(value(t, base) == digit_value(t[0]));
        }
    }
}

fn digit(d: u64) -> (c: char)
    requires
        d < 16,
    ensures
        c == digit_char(d as nat),
{
    if d < 10 {
        (48u8 + d as u8) as char
    } else {
        (87u8 + d as u8) as char
    }
}

/// Appends `n` in `base`, padded with zeros to `width` digits.
pub fn push_radix(s: &mut String, n: u64, base: u64, width: u32)
    requires
        2 <= base <= 16,
    ensures
        final(s)@ == old(s)@ + radix(n as nat, base as nat, width as nat),
    decreases n + width,
{
    if n >= base || width > 1 {
        let narrower: u32 = if width > 0 {
            width - 1
        } else {
            0
        };
        assert(n / base <= n) by (nonlinear_arith)
            requires
                base >= 2,
        ;
        assert(n >= base ==> n / base < n) by (nonlinear_arith)
            requires
                base >= 2,
        ;
        push_radix(s, n / base, base, narrower);
    }
    let rest: u64 = if n >= base || width > 1 {
        n % base
    } else {
        n
    };
    s.push(digit(rest));
    assert(s@ =~= old(s)@ + radix(n as nat, base as nat, width as nat));
}

/// Appends `n` in decimal.
pub fn push_decimal(s: &mut String, n: u64)
    ensures
        final(s)@ == old(s)@ + decimal(n as nat),
{
    push_radix(s, n, 10, 1);
}

/// The characters of a string, as a vector.
pub fn chars_of(s: &str) -> (v: Vec<char>)
    ensures
        v@ == s@,
{
    let mut v: Vec<char> = Vec::new();
    for c in it: s.chars()
        invariant
            v@ == it.seq().take(it.index() as int),
            it.seq() == s@,
    {
        v.push(c);
        assert(it.seq().take(it.index() + 1) =~= it.seq().take(it.index() as int).push(c));
    }
    assert(s@.take(s@.len() as int) =~= s@);
    v
}

/// The string made of the characters `v[from..to]`.
pub fn string_of(v: &Vec<char>, from: usize, to: usize) -> (s: String)
    requires
        from <= to <= v@.len(),
    ensures
        s@ == v@.subrange(from as int, to as int),
{
    let mut s = String::new();
    let mut i: usize = from;
    while i < to
        invariant
            from <= i <= to <= v@.len(),
            s@ == v@.subrange(from as int, i as int),
        decreases to - i,
    {
        s.push(v[i]);
        i = i + 1;
        assert(s@ =~= v@.subrange(from as int, i as int));
    }
    s
}

/// The texts that a sequence of strings holds.
pub open spec fn texts(v: Seq<String>) -> Seq<Seq<char>> {
    Seq::new(v.len(), |i: int| v[i]@)
}

/// The pieces of `s` between occurrences of `'/'`; there is always at least one.
pub open spec fn split_slash(s: Seq<char>) -> Seq<Seq<char>>
    decreases s.len(),
{
    if s.len() == 0 {
        seq![Seq::empty()]
    } else {
        let before = split_slash(s.drop_last());
        if s.last() == '/' {
            before.push(Seq::empty())
        } else {
            before.drop_last().push(before.last().push(s.last()))
        }
    }
}

/// A path component that names something: neither empty nor `"."`.
pub open spec fn names_something(piece: Seq<char>) -> bool {
    piece.len() != 0 && piece != "."@
}

/// The components of a path: what stands between slashes, without `"."` and the empty.
pub open spec fn components(path: Seq<char>) -> Seq<Seq<char>> {
    split_slash(path).filter(|piece: Seq<char>| names_something(piece))
}

proof fn lemma_filter_push(s: Seq<Seq<char>>, piece: Seq<char>)
    ensures
        s.push(piece).filter(|p: Seq<char>| names_something(p)) == if names_something(piece) {
            s.filter(|p: Seq<char>| names_something(p)).push(piece)
        } else {
            s.filter(|p: Seq<char>| names_something(p))
        },
{
    reveal(Seq::filter);
    assert(s.push(piece).drop_last() =~= s);
}

proof fn lemma_split_nonempty(s: Seq<char>)
    ensures
        split_slash(s).len() >= 1,
    decreases s.len(),
{
    if s.len() > 0 {
        lemma_split_nonempty(s.drop_last());
    }
}

proof fn lemma_split_join(a: Seq<char>, b: Seq<char>)
    ensures
        split_slash(a.push('/') + b) == split_slash(a) + split_slash(b),
    decreases b.len(),
{
    let s = a.push('/') + b;
    if b.len() == 0 {
        assert(s.drop_last() =~= a);
        assert(split_slash(s) =~= split_slash(a) + split_slash(b));
    } else {
        lemma_split_join(a, b.drop_last());
        lemma_split_nonempty(b.drop_last());
        assert(s.drop_last() =~= a.push('/') + b.drop_last());
        assert(split_slash(s) =~= split_slash(a) + split_slash(b));
    }
}

/// The components of two paths with a slash between them are those of the one and then those
/// of the other; nothing, and `"."`, have none. So empty and `"."` pieces can be put into a
/// path, or left out, without a change to its components.
pub proof fn law_components_join(a: Seq<char>, b: Seq<char>)
    ensures
        components(a.push('/') + b) == components(a) + components(b),
        components(Seq::empty()) == Seq::<Seq<char>>::empty(),
        components("."@) == Seq::<Seq<char>>::empty(),
{
    reveal_strlit(".");
    lemma_split_join(a, b);
    Seq::filter_distributes_over_add(
        split_slash(a),
        split_slash(b),
        |piece: Seq<char>| names_something(piece),
    );
    let none = Seq::<Seq<char>>::empty();
    reveal_with_fuel(split_slash, 2);
    reveal(Seq::filter);
    lemma_filter_push(none, Seq::empty());
    lemma_filter_push(none, "."@);
    assert(split_slash(Seq::empty()) =~= none.push(Seq::empty()));
    assert("."@.drop_last() =~= Seq::empty());
    assert(Seq::<char>::empty().push('.') =~= "."@);
    assert(split_slash("."@) =~= none.push("."@));
}

/// A piece of a path without a slash is a component, unless it is empty or `"."`.
pub proof fn law_single_component(piece: Seq<char>)
    requires
        forall|i: int| 0 <= i < piece.len() ==> #[trigger] piece[i] != '/',
    ensures
        components(piece) == if piece.len() == 0 || piece == seq!['.'] {
            Seq::<Seq<char>>::empty()
        } else {
            seq![piece]
        },
{
    reveal_strlit(".");
    assert("."@ =~= seq!['.']);
    lemma_unsplit(piece);
    let none = Seq::<Seq<char>>::empty();
    reveal(Seq::filter);
    lemma_filter_push(none, piece);
    assert(none.push(piece) =~= seq![piece]);
}

proof fn lemma_unsplit(piece: Seq<char>)
    requires
        forall|i: int| 0 <= i < piece.len() ==> #[trigger] piece[i] != '/',
    ensures
        split_slash(piece) == seq![piece],
    decreases piece.len(),
{
    if piece.len() > 0 {
        let t = piece.drop_last();
        assert forall|i: int| 0 <= i < t.len() implies #[trigger] t[i] != '/' by {
            assert(piece[i] != '/');
        }
        lemma_unsplit(t);
        assert(piece[piece.len() - 1] != '/');
        assert(t.push(piece.last()) =~= piece);
        assert(split_slash(piece) =~= seq![piece]);
    } else {
        assert(piece =~= Seq::empty());
    }
}

/// Units that are no surrogates are characters as they stand.
pub proof fn law_plain_units(units: Seq<u16>)
    requires
        forall|i: int|
            0 <= i < units.len() ==> #[trigger] units[i] < 0xD800 || units[i] > 0xDFFF,
    ensures
        utf16_text(units) == Seq::new(units.len(), |i: int| units[i] as char),
    decreases units.len(),
{
    if units.len() > 0 {
        let rest = units.skip(1);
        assert(units[0] < 0xD800 || units[0] > 0xDFFF);
        assert forall|i: int| 0 <= i < rest.len() implies #[trigger] rest[i] < 0xD800 || rest[i]
            > 0xDFFF by {
            assert(units[i + 1] < 0xD800 || units[i + 1] > 0xDFFF);
        }
        law_plain_units(rest);
    }
    assert(utf16_text(units) =~= Seq::new(units.len(), |i: int| units[i] as char));
}

fn push_component(kept: &mut Vec<String>, piece: String)
    ensures
        texts(final(kept)@) == if names_something(piece@) {
            texts(old(kept)@).push(piece@)
        } else {
            texts(old(kept)@)
        },
{
    if !piece.as_str().is_empty() && piece != ".".to_owned() {
        kept.push(piece);
        assert(texts(kept@) =~= texts(old(kept)@).push(piece@));
    }
}

/// The components of `path`, in order.
pub fn path_components(path: &str) -> (kept: Vec<String>)
    ensures
        texts(kept@) == components(path@),
{
    let chars = chars_of(path);
    let mut kept: Vec<String> = Vec::new();
    let mut piece = String::new();
    let mut i: usize = 0;
    proof {
        reveal(Seq::filter);
        assert(chars@.take(0) =~= Seq::<char>::empty());
        assert(split_slash(chars@.take(0)).drop_last() =~= Seq::<Seq<char>>::empty());
        assert(texts(kept@) =~= Seq::<Seq<char>>::empty());
    }
    while i < chars.len()
        invariant
            i <= chars@.len(),
            chars@ == path@,
            split_slash(chars@.take(i as int)).len() >= 1,
            piece@ == split_slash(chars@.take(i as int)).last(),
            texts(kept@) == split_slash(chars@.take(i as int)).drop_last().filter(
                |p: Seq<char>| names_something(p),
            ),
        decreases chars@.len() - i,
    {
        let c: char = chars[i];
        proof {
            let before = split_slash(chars@.take(i as int));
            assert(chars@.take(i + 1).drop_last() =~= chars@.take(i as int));
            lemma_split_nonempty(chars@.take(i + 1));
            lemma_filter_push(before.drop_last(), before.last());
            assert(before.drop_last().push(before.last()) =~= before);
            if c == '/' {
                assert(before.push(Seq::empty()).drop_last() =~= before);
            } else {
                assert(before.drop_last().push(before.last().push(c)).drop_last()
                    =~= before.drop_last());
            }
        }
        if c == '/' {
            push_component(&mut kept, piece);
            piece = String::new();
        } else {
            piece.push(c);
        }
        i = i + 1;
    }
    proof {
        let all = split_slash(chars@);
        assert(chars@.take(i as int) =~= chars@);
        lemma_filter_push(all.drop_last(), all.last());
        assert(all.drop_last().push(all.last()) =~= all);
    }
    push_component(&mut kept, piece);
    kept
}

} // verus!
