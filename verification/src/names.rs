//! File names that Windows accepts.

use crate::text::{chars_of, string_of};
use vstd::prelude::*;
use vstd::string::*;

verus! {

/// A character that no Windows file name may hold.
pub open spec fn is_forbidden(c: char) -> bool {
    c == '<' || c == '>' || c == ':' || c == '"' || c == '/' || c == '\\' || c == '|' || c == '?'
        || c == '*'
}

pub open spec fn replaced(c: char) -> char {
    if is_forbidden(c) {
        '_'
    } else {
        c
    }
}

/// `s` without the dots and spaces at its end.
pub open spec fn trim_tail(s: Seq<char>) -> Seq<char>
    decreases s.len(),
{
    if s.len() > 0 && (s.last() == '.' || s.last() == ' ') {
        trim_tail(s.drop_last())
    } else {
        s
    }
}

/// What stands before the first dot, or all of `s`.
pub open spec fn stem(s: Seq<char>) -> Seq<char>
    decreases s.len(),
{
    if s.len() == 0 || s[0] == '.' {
        Seq::empty()
    } else {
        seq![s[0]] + stem(s.skip(1))
    }
}

/// The upper case of an ASCII letter. No letter beyond ASCII matters here: none of them
/// turns into a letter of a reserved name.
pub open spec fn upper(c: char) -> char {
    if 'a' <= c <= 'z' {
        (c as u8 - 32) as char
    } else {
        c
    }
}

pub open spec fn uppercase(s: Seq<char>) -> Seq<char> {
    s.map_values(|c: char| upper(c))
}

pub open spec fn is_digit(c: char) -> bool {
    '0' <= c <= '9'
}

/// The number that a row of digits writes.
pub open spec fn number(s: Seq<char>) -> nat
    decreases s.len(),
{
    if s.len() == 0 {
        0
    } else {
        number(s.drop_last()) * 10 + (s.last() as nat - 48) as nat
    }
}

pub open spec fn all_digits(s: Seq<char>) -> bool {
    forall|i: int| 0 <= i < s.len() ==> is_digit(#[trigger] s[i])
}

/// `s` without the plus sign at its start.
pub open spec fn after_plus(s: Seq<char>) -> Seq<char> {
    if s.len() > 0 && s[0] == '+' {
        s.skip(1)
    } else {
        s
    }
}

/// A decimal number from one to nine, perhaps with a plus sign and leading zeros.
pub open spec fn is_port_number(s: Seq<char>) -> bool {
    &&& after_plus(s).len() > 0
    &&& all_digits(after_plus(s))
    &&& 1 <= number(after_plus(s)) <= 9
}

/// The name of a device, which Windows reserves: CON, PRN, AUX, NUL, CLOCK$, and COM and
/// LPT with a number from one to nine. `base` is in upper case.
pub open spec fn is_reserved(base: Seq<char>) -> bool {
    ||| base == "CON"@
    ||| base == "PRN"@
    ||| base == "AUX"@
    ||| base == "NUL"@
    ||| base == "CLOCK$"@
    ||| base.len() >= 3 && (base.take(3) == "COM"@ || base.take(3) == "LPT"@) && is_port_number(
        base.skip(3),
    )
}

/// A name from which what Windows does not accept has been taken out, before a reserved
/// name is told apart.
pub open spec fn cleaned(name: Seq<char>) -> Seq<char> {
    let t = trim_tail(name.map_values(|c: char| replaced(c)));
    if t.len() == 0 {
        seq!['_']
    } else {
        t
    }
}

/// The name that a file gets on Windows.
pub open spec fn safe_name(name: Seq<char>) -> Seq<char> {
    let t = cleaned(name);
    if is_reserved(uppercase(stem(t))) {
        seq!['_'] + t
    } else {
        t
    }
}

proof fn lemma_trimmed(s: Seq<char>)
    ensures
        trim_tail(s).len() <= s.len(),
        trim_tail(s) == s.take(trim_tail(s).len() as int),
        trim_tail(s).len() > 0 ==> trim_tail(s).last() != '.' && trim_tail(s).last() != ' ',
    decreases s.len(),
{
    if s.len() > 0 && (s.last() == '.' || s.last() == ' ') {
        lemma_trimmed(s.drop_last());
        let n = trim_tail(s).len() as int;
        assert(s.drop_last().take(n) =~= s.take(n));
    } else {
        assert(s.take(s.len() as int) =~= s);
    }
}

/// A name that starts with an underscore is none that is reserved.
proof fn lemma_underscore_free(t: Seq<char>)
    ensures
        !is_reserved(uppercase(stem(seq!['_'] + t))),
{
    let u = seq!['_'] + t;
    let base = uppercase(stem(u));
    assert(u[0] == '_');
    assert(stem(u)[0] == '_');
    assert(base[0] == '_');
    reveal_strlit("CON");
    reveal_strlit("PRN");
    reveal_strlit("AUX");
    reveal_strlit("NUL");
    reveal_strlit("CLOCK$");
    reveal_strlit("COM");
    reveal_strlit("LPT");
    if base.len() >= 3 {
        assert(base.take(3)[0] == '_');
    }
    assert("CON"@[0] == 'C' && "PRN"@[0] == 'P' && "AUX"@[0] == 'A' && "NUL"@[0] == 'N'
        && "CLOCK$"@[0] == 'C' && "COM"@[0] == 'C' && "LPT"@[0] == 'L');
}

/// A safe name is not empty, holds no forbidden character, ends neither in a dot nor in a
/// space, and is not the name of a device.
pub proof fn law_safe_name_is_usable(name: Seq<char>)
    ensures
        safe_name(name).len() > 0,
        forall|i: int| 0 <= i < safe_name(name).len() ==> !is_forbidden(
            #[trigger] safe_name(name)[i],
        ),
        safe_name(name).last() != '.',
        safe_name(name).last() != ' ',
        !is_reserved(uppercase(stem(safe_name(name)))),
{
    lemma_trimmed(name.map_values(|c: char| replaced(c)));
    lemma_underscore_free(cleaned(name));
}

/// A safe name is left alone.
pub proof fn law_safe_name_is_kept(name: Seq<char>)
    ensures
        safe_name(safe_name(name)) == safe_name(name),
{
    law_safe_name_is_usable(name);
    let s = safe_name(name);
    assert(s.map_values(|c: char| replaced(c)) =~= s);
}

/// Whether `a` is `b`, whose letters are capitals, in capitals, in small letters or in both.
pub open spec fn same_letters(a: Seq<char>, b: Seq<char>) -> bool {
    &&& a.len() == b.len()
    &&& forall|i: int|
        0 <= i < a.len() ==> a[i] == #[trigger] b[i] || ('A' <= b[i] <= 'Z' && a[i] as int == b[i]
            as int + 32)
}

/// Whether `s` is one digit other than zero, behind any number of zeros.
pub open spec fn is_one_to_nine(s: Seq<char>) -> bool {
    &&& s.len() > 0
    &&& '1' <= s.last() <= '9'
    &&& forall|i: int| 0 <= i < s.len() - 1 ==> #[trigger] s[i] == '0'
}

/// Whether `s` is the name of a device, in whatever letters.
pub open spec fn is_device(s: Seq<char>) -> bool {
    ||| same_letters(s, "CON"@)
    ||| same_letters(s, "PRN"@)
    ||| same_letters(s, "AUX"@)
    ||| same_letters(s, "NUL"@)
    ||| same_letters(s, "CLOCK$"@)
    ||| s.len() > 3 && (same_letters(s.take(3), "COM"@) || same_letters(s.take(3), "LPT"@)) && (
    is_one_to_nine(s.skip(3)) || (s[3] == '+' && is_one_to_nine(s.skip(4))))
}

/// The characters that no Windows file name may hold.
pub open spec fn forbidden() -> Seq<char> {
    seq!['<', '>', ':', '"', '/', '\\', '|', '?', '*']
}

proof fn lemma_zero(s: Seq<char>)
    requires
        all_digits(s),
    ensures
        number(s) == 0 <==> forall|i: int| 0 <= i < s.len() ==> #[trigger] s[i] == '0',
    decreases s.len(),
{
    if s.len() > 0 {
        let t = s.drop_last();
        assert forall|i: int| 0 <= i < t.len() implies is_digit(#[trigger] t[i]) by {
            assert(is_digit(s[i]));
        }
        lemma_zero(t);
        assert(is_digit(s[s.len() - 1]));
        if number(s) == 0 {
            assert forall|i: int| 0 <= i < s.len() implies #[trigger] s[i] == '0' by {
                if i < t.len() {
                    assert(t[i] == '0');
                }
            }
        }
        if forall|i: int| 0 <= i < s.len() ==> #[trigger] s[i] == '0' {
            assert forall|i: int| 0 <= i < t.len() implies #[trigger] t[i] == '0' by {
                assert(s[i] == '0');
            }
            assert(s[s.len() - 1] == '0');
        }
    }
}

proof fn lemma_port(s: Seq<char>)
    ensures
        (s.len() > 0 && all_digits(s) && 1 <= number(s) <= 9) <==> is_one_to_nine(s),
{
    if s.len() > 0 {
        let t = s.drop_last();
        if all_digits(s) {
            assert forall|i: int| 0 <= i < t.len() implies is_digit(#[trigger] t[i]) by {
                assert(is_digit(s[i]));
            }
            lemma_zero(t);
            assert(is_digit(s[s.len() - 1]));
            if 1 <= number(s) <= 9 {
                assert(number(t) == 0);
                assert forall|i: int| 0 <= i < s.len() - 1 implies #[trigger] s[i] == '0' by {
                    assert(t[i] == '0');
                }
            }
        }
        if is_one_to_nine(s) {
            assert forall|i: int| 0 <= i < s.len() implies is_digit(#[trigger] s[i]) by {
                if i < s.len() - 1 {
                    assert(s[i] == '0');
                }
            }
            assert forall|i: int| 0 <= i < t.len() implies is_digit(#[trigger] t[i]) by {
                assert(is_digit(s[i]));
            }
            assert forall|i: int| 0 <= i < t.len() implies #[trigger] t[i] == '0' by {
                assert(s[i] == '0');
            }
            lemma_zero(t);
        }
    }
}

proof fn lemma_same_letters(a: Seq<char>, b: Seq<char>)
    requires
        forall|i: int| 0 <= i < b.len() ==> !('a' <= #[trigger] b[i] <= 'z'),
    ensures
        uppercase(a) == b <==> same_letters(a, b),
{
    if uppercase(a) == b {
        assert forall|i: int| 0 <= i < a.len() implies a[i] == #[trigger] b[i] || ('A' <= b[i]
            <= 'Z' && a[i] as int == b[i] as int + 32) by {
            assert(uppercase(a)[i] == upper(a[i]));
        }
    }
    if same_letters(a, b) {
        assert forall|i: int| 0 <= i < a.len() implies uppercase(a)[i] == #[trigger] b[i] by {
            assert(uppercase(a)[i] == upper(a[i]));
        }
        assert(uppercase(a) =~= b);
    }
}

proof fn lemma_device(s: Seq<char>)
    ensures
        is_reserved(uppercase(s)) <==> is_device(s),
{
    reveal_strlit("CON");
    reveal_strlit("PRN");
    reveal_strlit("AUX");
    reveal_strlit("NUL");
    reveal_strlit("CLOCK$");
    reveal_strlit("COM");
    reveal_strlit("LPT");
    lemma_same_letters(s, "CON"@);
    lemma_same_letters(s, "PRN"@);
    lemma_same_letters(s, "AUX"@);
    lemma_same_letters(s, "NUL"@);
    lemma_same_letters(s, "CLOCK$"@);
    if s.len() >= 3 {
        lemma_same_letters(s.take(3), "COM"@);
        lemma_same_letters(s.take(3), "LPT"@);
        assert(uppercase(s).take(3) =~= uppercase(s.take(3)));
        lemma_port_of_upper(s.skip(3));
        assert(uppercase(s).skip(3) =~= uppercase(s.skip(3)));
        if s.len() > 3 {
            assert(s.skip(3)[0] == s[3]);
            assert(s.skip(3).skip(1) =~= s.skip(4));
        }
    }
}

proof fn lemma_port_of_upper(s: Seq<char>)
    ensures
        is_port_number(uppercase(s)) <==> s.len() > 0 && (is_one_to_nine(s) || (s[0] == '+'
            && is_one_to_nine(s.skip(1)))),
{
    let u = uppercase(s);
    lemma_port(after_plus(u));
    lemma_digits_of_upper(s);
    if s.len() > 0 {
        lemma_digits_of_upper(s.skip(1));
        assert(u.skip(1) =~= uppercase(s.skip(1)));
        assert(u[0] == upper(s[0]));
        if is_one_to_nine(s) {
            assert(s[0] == s.last() || s[0] == '0');
        }
    }
}

proof fn lemma_digits_of_upper(s: Seq<char>)
    ensures
        is_one_to_nine(uppercase(s)) <==> is_one_to_nine(s),
{
    let u = uppercase(s);
    if s.len() > 0 {
        assert(u.last() == upper(s.last()));
        if is_one_to_nine(u) {
            assert forall|i: int| 0 <= i < s.len() - 1 implies #[trigger] s[i] == '0' by {
                assert(u[i] == '0');
            }
        }
        if is_one_to_nine(s) {
            assert forall|i: int| 0 <= i < u.len() - 1 implies #[trigger] u[i] == '0' by {
                assert(s[i] == '0');
            }
        }
    }
}

/// The characters of a safe name are those of the name, up to the last one that is neither a dot
/// nor a space, with an underscore for each that is forbidden. An underscore stands before them
/// if, up to their first dot, they name a device, and only then. `n` is how many there are, and
/// `p` how many come before the first dot.
pub proof fn law_safe_name_spelled(name: Seq<char>, n: int, p: int)
    requires
        0 < n <= name.len(),
        name[n - 1] != '.' && name[n - 1] != ' ',
        forall|i: int| n <= i < name.len() ==> #[trigger] name[i] == '.' || name[i] == ' ',
        0 <= p <= n,
        forall|i: int| 0 <= i < p ==> #[trigger] name[i] != '.',
        p < n ==> name[p] == '.',
    ensures
        ({
            let kept = Seq::new(
                n as nat,
                |i: int|
                    if forbidden().contains(name[i]) {
                        '_'
                    } else {
                        name[i]
                    },
            );
            safe_name(name) == if is_device(kept.take(p)) {
                seq!['_'] + kept
            } else {
                kept
            }
        }),
{
    let kept = Seq::new(
        n as nat,
        |i: int|
            if forbidden().contains(name[i]) {
                '_'
            } else {
                name[i]
            },
    );
    assert forall|c: char| #[trigger] forbidden().contains(c) <==> is_forbidden(c) by {
        let f = forbidden();
        assert(f[0] == '<' && f[1] == '>' && f[2] == ':' && f[3] == '"' && f[4] == '/' && f[5]
            == '\\' && f[6] == '|' && f[7] == '?' && f[8] == '*');
    }
    let mapped = name.map_values(|c: char| replaced(c));
    assert forall|i: int| n <= i < mapped.len() implies #[trigger] mapped[i] == '.' || mapped[i]
        == ' ' by {
        assert(name[i] == '.' || name[i] == ' ');
    }
    lemma_cut(mapped, n);
    assert(mapped.take(n) =~= kept);
    assert forall|i: int| 0 <= i < p implies kept[i] != '.' by {
        assert(name[i] != '.');
    }
    lemma_stem(kept, p);
    lemma_device(kept.take(p));
}

proof fn lemma_cut(s: Seq<char>, n: int)
    requires
        0 <= n <= s.len(),
        n > 0 ==> s[n - 1] != '.' && s[n - 1] != ' ',
        forall|i: int| n <= i < s.len() ==> #[trigger] s[i] == '.' || s[i] == ' ',
    ensures
        trim_tail(s) == s.take(n),
    decreases s.len(),
{
    if n < s.len() {
        assert(s[s.len() - 1] == '.' || s[s.len() - 1] == ' ');
        lemma_cut(s.drop_last(), n);
        assert(s.drop_last().take(n) =~= s.take(n));
    } else {
        assert(s.take(n) =~= s);
    }
}

/// A name of nothing but dots and spaces becomes an underscore.
pub proof fn law_empty_names(name: Seq<char>)
    requires
        forall|i: int| 0 <= i < name.len() ==> #[trigger] name[i] == '.' || name[i] == ' ',
    ensures
        safe_name(name) == seq!['_'],
{
    let mapped = name.map_values(|c: char| replaced(c));
    assert forall|i: int| 0 <= i < mapped.len() implies #[trigger] mapped[i] == '.' || mapped[i]
        == ' ' by {
        assert(name[i] == '.' || name[i] == ' ');
    }
    lemma_cut(mapped, 0);
    lemma_underscore_free(Seq::empty());
    assert(seq!['_'] + Seq::<char>::empty() =~= seq!['_']);
}

fn replace_char(c: char) -> (r: char)
    ensures
        r == replaced(c),
{
    if c == '<' || c == '>' || c == ':' || c == '"' || c == '/' || c == '\\' || c == '|' || c
        == '?' || c == '*' {
        '_'
    } else {
        c
    }
}

fn upper_char(c: char) -> (r: char)
    ensures
        r == upper(c),
{
    if 'a' <= c && c <= 'z' {
        (c as u8 - 32) as char
    } else {
        c
    }
}

proof fn lemma_stem(s: Seq<char>, n: int)
    requires
        0 <= n <= s.len(),
        forall|i: int| 0 <= i < n ==> s[i] != '.',
        n < s.len() ==> s[n] == '.',
    ensures
        stem(s) == s.take(n),
    decreases n,
{
    if n > 0 {
        assert forall|i: int| 0 <= i < n - 1 implies s.skip(1)[i] != '.' by {
            assert(s.skip(1)[i] == s[i + 1]);
        }
        lemma_stem(s.skip(1), n - 1);
        assert(s.take(n) =~= seq![s[0]] + s.skip(1).take(n - 1));
    } else {
        assert(s.take(0) =~= Seq::empty());
    }
}

/// The part before the first dot, in upper case.
fn upper_stem(chars: &Vec<char>) -> (base: Vec<char>)
    ensures
        base@ == uppercase(stem(chars@)),
{
    let mut base: Vec<char> = Vec::new();
    let mut n: usize = 0;
    while n < chars.len() && chars[n] != '.'
        invariant
            n <= chars@.len(),
            forall|i: int| 0 <= i < n ==> chars@[i] != '.',
            base@ == uppercase(chars@.take(n as int)),
        decreases chars@.len() - n,
    {
        base.push(upper_char(chars[n]));
        assert(base@ =~= uppercase(chars@.take(n + 1)));
        n = n + 1;
    }
    proof {
        lemma_stem(chars@, n as int);
    }
    base
}

proof fn lemma_number_grows(s: Seq<char>, n: int)
    requires
        0 <= n <= s.len(),
        all_digits(s),
    ensures
        number(s.take(n)) <= number(s),
    decreases s.len() - n,
{
    if n < s.len() {
        lemma_number_grows(s, n + 1);
        assert(s.take(n + 1).drop_last() =~= s.take(n));
        assert(is_digit(s[n]));
    } else {
        assert(s.take(n) =~= s);
    }
}

fn port_number(chars: &Vec<char>, from: usize) -> (b: bool)
    requires
        from <= chars@.len(),
    ensures
        b == is_port_number(chars@.skip(from as int)),
{
    let ghost s = chars@.skip(from as int);
    let mut i: usize = from;
    if i < chars.len() && chars[i] == '+' {
        i = i + 1;
    }
    let first: usize = i;
    let ghost digits = chars@.skip(first as int);
    assert(digits =~= after_plus(s));
    if i == chars.len() {
        return false;
    }
    let mut n: u32 = 0;
    assert(digits.take(0) =~= Seq::<char>::empty());
    while i < chars.len()
        invariant
            first <= i <= chars@.len(),
            digits == chars@.skip(first as int),
            forall|k: int| 0 <= k < i - first ==> is_digit(#[trigger] digits[k]),
            n == number(digits.take(i - first)),
            n <= 9,
            s == chars@.skip(from as int),
            digits == after_plus(s),
        decreases chars@.len() - i,
    {
        let c: char = chars[i];
        assert(digits[i - first] == c);
        if !('0' <= c && c <= '9') {
            return false;
        }
        assert(digits.take(i + 1 - first).drop_last() =~= digits.take(i - first));
        n = n * 10 + (c as u32 - 48);
        if n > 9 {
            proof {
                if all_digits(digits) {
                    lemma_number_grows(digits, i + 1 - first);
                }
            }
            return false;
        }
        i = i + 1;
    }
    assert(digits.take(i - first) =~= digits);
    n >= 1
}

fn reserved(base: &Vec<char>) -> (b: bool)
    ensures
        b == is_reserved(base@),
{
    let text = string_of(base, 0, base.len());
    assert(base@.subrange(0, base@.len() as int) =~= base@);
    if text == "CON".to_owned() || text == "PRN".to_owned() || text == "AUX".to_owned() || text
        == "NUL".to_owned() || text == "CLOCK$".to_owned() {
        return true;
    }
    if base.len() < 3 {
        return false;
    }
    let head = string_of(base, 0, 3);
    assert(base@.subrange(0, 3) =~= base@.take(3));
    (head == "COM".to_owned() || head == "LPT".to_owned()) && port_number(base, 3)
}

/// Makes a file name usable on Windows: replaces invalid characters, takes off trailing
/// dots and spaces, and sets reserved device names apart. Returns the safe name, and
/// whether it differs from `name`.
pub fn sanitize_name(name: &str) -> (r: (String, bool))
    ensures
        r.0@ == safe_name(name@),
        r.1 == (safe_name(name@) != name@),
{
    let chars = chars_of(name);
    let ghost mapped = name@.map_values(|c: char| replaced(c));
    let mut out: Vec<char> = Vec::new();
    let mut i: usize = 0;
    while i < chars.len()
        invariant
            i <= chars@.len(),
            chars@ == name@,
            mapped == name@.map_values(|c: char| replaced(c)),
            out@ == mapped.take(i as int),
        decreases chars@.len() - i,
    {
        out.push(replace_char(chars[i]));
        i = i + 1;
        assert(out@ =~= mapped.take(i as int));
    }
    assert(out@ =~= mapped);
    while out.len() > 0 && (out[out.len() - 1] == '.' || out[out.len() - 1] == ' ')
        invariant
            trim_tail(out@) == trim_tail(mapped),
        decreases out@.len(),
    {
        let ghost before = out@;
        out.pop();
        assert(out@ =~= before.drop_last());
    }
    if out.len() == 0 {
        out.push('_');
        assert(out@ =~= seq!['_']);
    }
    let base = upper_stem(&out);
    let mut safe = String::new();
    if reserved(&base) {
        safe.push('_');
        assert(safe@ =~= seq!['_']);
    }
    let rest = string_of(&out, 0, out.len());
    assert(out@.subrange(0, out@.len() as int) =~= out@);
    safe.append(rest.as_str());
    assert(safe@ =~= safe_name(name@));
    let changed = safe != name.to_owned();
    (safe, changed)
}

} // verus!
