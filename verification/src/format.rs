//! How sizes, bytes and file types are shown.

use crate::text::{decimal, push_decimal, push_radix, radix};
use vstd::arithmetic::power::pow;
use vstd::arithmetic::power2::{
    lemma2_to64, lemma2_to64_rest, lemma_pow2_strictly_increases, lemma_pow2_unfold, pow2,
};
use vstd::prelude::*;
use vstd::string::*;

verus! {

/// The integer nearest to `a / b`; of two that are equally near, the even one.
pub open spec fn nearest(a: nat, b: nat) -> nat {
    if 2 * (a % b) < b || (2 * (a % b) == b && a / b % 2 == 0) {
        a / b
    } else {
        a / b + 1
    }
}

/// The distance between neighbouring numbers of double precision around `n`.
pub open spec fn spacing(n: nat) -> nat
    decreases n,
{
    if n < 0x20_0000_0000_0000 {
        1
    } else {
        2 * spacing(n / 2)
    }
}

/// `n` in double precision.
pub open spec fn in_double(n: nat) -> nat {
    nearest(n, spacing(n)) * spacing(n)
}

/// How many bytes the unit number `u` has: 1 for bytes, 1024 for kilobytes, and so on.
pub open spec fn unit_bytes(u: nat) -> nat
    decreases u,
{
    if u == 0 {
        1
    } else {
        1024 * unit_bytes((u - 1) as nat)
    }
}

/// The largest unit, from unit `u` on, that a size of `m` bytes reaches; petabytes are the
/// last.
pub open spec fn unit_from(m: nat, u: nat) -> nat
    decreases 5 - u,
{
    if u >= 5 || m < unit_bytes(u + 1) {
        u
    } else {
        unit_from(m, u + 1)
    }
}

pub open spec fn unit_name(u: nat) -> Seq<char> {
    if u == 0 {
        "B"@
    } else if u == 1 {
        "KB"@
    } else if u == 2 {
        "MB"@
    } else if u == 3 {
        "GB"@
    } else if u == 4 {
        "TB"@
    } else {
        "PB"@
    }
}

/// A size in bytes as a short text: in the unit it reaches, rounded to one digit behind the
/// point, or to none from a hundred on. Sizes beyond double precision are first brought to
/// it.
pub open spec fn size_text(n: u64) -> Seq<char> {
    let m = in_double(n as nat);
    let u = unit_from(m, 0);
    let unit = unit_bytes(u);
    let tenths = nearest(10 * m, unit);
    if n < 1024 {
        decimal(n as nat) + " B"@
    } else if m >= 100 * unit {
        decimal(nearest(m, unit)) + " "@ + unit_name(u)
    } else {
        decimal(tenths / 10) + "."@ + decimal(tenths % 10) + " "@ + unit_name(u)
    }
}

/// No integer is nearer to `a / b`, and of two that are equally near it is the even one.
pub proof fn law_nearest(a: nat, b: nat)
    requires
        b > 0,
    ensures
        ({
            let q = nearest(a, b);
            &&& -(b as int) <= 2 * (q * b - a) <= b
            &&& 2 * (q * b - a) == b || 2 * (a - q * b) == b ==> q % 2 == 0
        }),
{
    vstd::arithmetic::div_mod::lemma_fundamental_div_mod(a as int, b as int);
    let d = a / b;
    assert(b * d == d * b && (d + 1) * b == d * b + b) by (nonlinear_arith);
}

/// Numbers below 2 to the 53rd are kept in double precision. From there on the distance between
/// neighbouring numbers doubles with every power of two.
pub proof fn law_spacing_of_doubles(n: nat, e: nat)
    ensures
        n < pow2(53) ==> spacing(n) == 1 && in_double(n) == n,
        pow2(e + 52) <= n < pow2(e + 53) ==> spacing(n) == pow2(e),
    decreases n,
{
    lemma2_to64();
    lemma2_to64_rest();
    if n < pow2(53) {
        vstd::arithmetic::div_mod::lemma_div_basics(n as int);
        vstd::arithmetic::div_mod::lemma_mod_self_0(1);
        assert(n % 1 == 0 && n / 1 == n);
        if pow2(e + 52) <= n < pow2(e + 53) && e > 0 {
            if e > 1 {
                lemma_pow2_strictly_increases(53, e + 52);
            }
        }
    } else if pow2(e + 52) <= n < pow2(e + 53) {
        if e == 0 {
            assert(false);
        } else {
            lemma_pow2_unfold(e + 52);
            lemma_pow2_unfold(e + 53);
            lemma_pow2_unfold(e);
            let d = (e - 1) as nat;
            assert(d + 53 == e + 52);
            law_spacing_of_doubles(n / 2, d);
        }
    }
}

/// What a number is in double precision: the nearest multiple of the distance that numbers have
/// there.
pub proof fn law_in_double(n: nat, q: nat)
    requires
        n < 0x1_0000_0000_0000_0000,
        ({
            let k = spacing(n);
            &&& -(k as int) <= 2 * (q * k - n) <= k
            &&& 2 * (q * k - n) == k || 2 * (n - q * k) == k ==> q % 2 == 0
        }),
    ensures
        in_double(n) == q * spacing(n),
{
    lemma_spacing(n);
    let k = spacing(n);
    law_nearest(n, k);
    lemma_only_one_nearest(n as int, k as int, q as int, nearest(n, k) as int);
}

proof fn lemma_only_one_nearest(a: int, b: int, q: int, r: int)
    requires
        b > 0,
        -b <= 2 * (q * b - a) <= b,
        2 * (q * b - a) == b || 2 * (a - q * b) == b ==> q % 2 == 0,
        -b <= 2 * (r * b - a) <= b,
        2 * (r * b - a) == b || 2 * (a - r * b) == b ==> r % 2 == 0,
    ensures
        q == r,
{
    assert(q - r <= 1 && r - q <= 1) by (nonlinear_arith)
        requires
            b > 0,
            -b <= 2 * (q * b - a) <= b,
            -b <= 2 * (r * b - a) <= b,
    ;
    if q == r + 1 {
        assert(q * b == r * b + b) by (nonlinear_arith)
            requires
                q == r + 1,
        ;
    } else if r == q + 1 {
        assert(r * b == q * b + b) by (nonlinear_arith)
            requires
                r == q + 1,
        ;
    }
}

/// The letter of a unit: each is 1024 of the one before.
pub open spec fn unit_letter(u: nat) -> char {
    seq!['K', 'M', 'G', 'T', 'P'][u - 1]
}

/// A size is shown in the largest unit that it reaches, up to petabytes: `q` is the nearest whole
/// number of them where there are a hundred or more, and else the nearest whole number of tenths.
pub proof fn law_shown_sizes(n: u64, u: nat, unit: nat, q: nat)
    requires
        n >= 1024,
        1 <= u <= 5,
        unit == pow(1024, u),
        in_double(n as nat) >= unit,
        u < 5 ==> in_double(n as nat) < 1024 * unit,
        ({
            let m = in_double(n as nat);
            let part = if m >= 100 * unit {
                m
            } else {
                10 * m
            };
            &&& -(unit as int) <= 2 * (q * unit - part) <= unit
            &&& 2 * (q * unit - part) == unit || 2 * (part - q * unit) == unit ==> q % 2 == 0
        }),
    ensures
        size_text(n) == if in_double(n as nat) >= 100 * unit {
            decimal(q) + seq![' ', unit_letter(u), 'B']
        } else {
            decimal(q / 10) + seq!['.'] + decimal(q % 10) + seq![' ', unit_letter(u), 'B']
        },
{
    reveal_strlit("KB");
    reveal_strlit("MB");
    reveal_strlit("GB");
    reveal_strlit("TB");
    reveal_strlit("PB");
    reveal_strlit(" ");
    reveal_strlit(".");
    let m = in_double(n as nat);
    lemma_units();
    reveal_with_fuel(pow, 7);
    assert(unit == unit_bytes(u));
    reveal_with_fuel(unit_from, 7);
    assert(unit_from(m, 0) == u);
    let part = if m >= 100 * unit {
        m
    } else {
        10 * m
    };
    law_nearest(part, unit);
    lemma_only_one_nearest(part as int, unit as int, q as int, nearest(part, unit) as int);
    assert(" "@ + unit_name(u) =~= seq![' ', unit_letter(u), 'B']);
    assert("."@ =~= seq!['.']);
    if m >= 100 * unit {
        assert(size_text(n) =~= decimal(q) + seq![' ', unit_letter(u), 'B']);
    } else {
        assert(size_text(n) =~= decimal(q / 10) + seq!['.'] + decimal(q % 10) + seq![
            ' ',
            unit_letter(u),
            'B',
        ]);
    }
}

/// A size below 1024 is shown in bytes.
pub proof fn law_shown_bytes(n: u64)
    requires
        n < 1024,
    ensures
        size_text(n) == decimal(n as nat) + seq![' ', 'B'],
{
    reveal_strlit(" B");
    assert(" B"@ =~= seq![' ', 'B']);
}

fn nearest_u128(a: u128, b: u128) -> (q: u128)
    requires
        0 < b <= 0x1_0000_0000_0000_0000,
        a <= 0xff_0000_0000_0000_0000,
    ensures
        q == nearest(a as nat, b as nat),
        q <= a + 1,
{
    assert(a / b <= a) by (nonlinear_arith)
        requires
            b > 0,
    ;
    let q: u128 = a / b;
    let r: u128 = a % b;
    if 2 * r < b || (2 * r == b && q % 2 == 0) {
        q
    } else {
        q + 1
    }
}

proof fn lemma_spacing(n: nat)
    requires
        n < 0x1_0000_0000_0000_0000,
    ensures
        1 <= spacing(n) <= 0x800,
        n >= 0x20_0000_0000_0000 ==> 0x10_0000_0000_0000 * spacing(n) <= n,
        n < 0x20_0000_0000_0000 * spacing(n),
{
    reveal_with_fuel(spacing, 13);
}

fn spacing_of(n: u64) -> (k: u64)
    ensures
        k == spacing(n as nat),
        1 <= k <= 0x800,
{
    proof {
        lemma_spacing(n as nat);
    }
    let mut rest: u64 = n;
    let mut k: u64 = 1;
    assert(1 * spacing(rest as nat) == spacing(rest as nat));
    while rest >= 0x20_0000_0000_0000
        invariant
            spacing(n as nat) == k * spacing(rest as nat),
            1 <= spacing(n as nat) <= 0x800,
            1 <= k,
        decreases rest,
    {
        proof {
            lemma_spacing(rest as nat);
            lemma_spacing((rest / 2) as nat);
            let s = spacing((rest / 2) as nat);
            assert(k * (2 * s) == (2 * k) * s) by (nonlinear_arith);
            assert(2 * k <= (2 * k) * s) by (nonlinear_arith)
                requires
                    s >= 1,
                    k >= 1,
            ;
        }
        rest = rest / 2;
        k = 2 * k;
    }
    assert(k * 1 == k);
    k
}

fn to_double(n: u64) -> (m: u128)
    ensures
        m == in_double(n as nat),
        m <= 0x1_0000_0000_0000_0000,
{
    let k: u64 = spacing_of(n);
    let q: u128 = nearest_u128(n as u128, k as u128);
    proof {
        lemma_spacing(n as nat);
        lemma_double_bound(n as nat, k as nat);
    }
    q * k as u128
}

/// Rounding to double precision never passes the next power of two.
proof fn lemma_double_bound(n: nat, k: nat)
    requires
        n < 0x1_0000_0000_0000_0000,
        k == spacing(n),
        1 <= k <= 0x800,
    ensures
        nearest(n, k) * k <= 0x1_0000_0000_0000_0000,
        nearest(n, k) <= 0x20_0000_0000_0000,
{
    lemma_spacing(n);
    vstd::arithmetic::div_mod::lemma_fundamental_div_mod(n as int, k as int);
    let q = n / k;
    assert(q < 0x20_0000_0000_0000) by (nonlinear_arith)
        requires
            n < 0x20_0000_0000_0000 * k,
            n == k * q + n % k,
            n % k >= 0,
            k > 0,
    ;
    assert(nearest(n, k) <= 0x20_0000_0000_0000);
    assert(nearest(n, k) * k <= 0x20_0000_0000_0000 * 0x800) by (nonlinear_arith)
        requires
            nearest(n, k) <= 0x20_0000_0000_0000,
            k <= 0x800,
            k > 0,
    ;
}

proof fn lemma_units()
    ensures
        unit_bytes(0) == 1,
        unit_bytes(1) == 0x400,
        unit_bytes(2) == 0x10_0000,
        unit_bytes(3) == 0x4000_0000,
        unit_bytes(4) == 0x100_0000_0000,
        unit_bytes(5) == 0x4_0000_0000_0000,
{
    reveal_with_fuel(unit_bytes, 6);
}

fn name_of_unit(u: u32) -> (s: &'static str)
    ensures
        s@ == unit_name(u as nat),
{
    if u == 0 {
        "B"
    } else if u == 1 {
        "KB"
    } else if u == 2 {
        "MB"
    } else if u == 3 {
        "GB"
    } else if u == 4 {
        "TB"
    } else {
        "PB"
    }
}

/// Shows a size in bytes as a short text.
pub fn fmt_size(n: u64) -> (s: String)
    ensures
        s@ == size_text(n),
{
    let mut s = String::new();
    if n < 1024 {
        push_decimal(&mut s, n);
        s.append(" B");
        assert(s@ =~= decimal(n as nat) + " B"@);
        return s;
    }
    let m: u128 = to_double(n);
    let mut u: u32 = 0;
    let mut unit: u128 = 1;
    proof {
        lemma_units();
    }
    while u < 5 && m >= 1024 * unit
        invariant
            u <= 5,
            unit == unit_bytes(u as nat),
            1 <= unit <= 0x4_0000_0000_0000,
            u < 5 ==> unit <= 0x100_0000_0000,
            unit_from(m as nat, 0) == unit_from(m as nat, u as nat),
        decreases 5 - u,
    {
        unit = 1024 * unit;
        u = u + 1;
        proof {
            lemma_units();
        }
    }
    proof {
        lemma_units();
        assert(u == unit_from(m as nat, 0));
    }
    if m >= 100 * unit {
        let whole: u128 = nearest_u128(m, unit);
        proof {
            lemma_whole_bound(m as nat, unit as nat, u as nat);
        }
        push_decimal(&mut s, whole as u64);
        s.append(" ");
        s.append(name_of_unit(u));
        assert(s@ =~= size_text(n));
        return s;
    }
    let tenths: u128 = nearest_u128(10 * m, unit);
    proof {
        lemma_tenths_bound(m as nat, unit as nat);
    }
    push_decimal(&mut s, (tenths / 10) as u64);
    s.append(".");
    push_decimal(&mut s, (tenths % 10) as u64);
    s.append(" ");
    s.append(name_of_unit(u));
    assert(s@ =~= size_text(n));
    s
}

proof fn lemma_whole_bound(m: nat, unit: nat, u: nat)
    requires
        unit >= 1,
        m <= 0x1_0000_0000_0000_0000,
        m >= 100 * unit,
        unit == 1 ==> m < 1024,
    ensures
        nearest(m, unit) <= u64::MAX,
{
    if unit > 1 {
        assert(m / unit <= m / 2) by (nonlinear_arith)
            requires
                unit >= 2,
        ;
    } else {
        assert(m / unit == m && m % unit == 0) by (nonlinear_arith)
            requires
                unit == 1,
        ;
    }
}

proof fn lemma_tenths_bound(m: nat, unit: nat)
    requires
        unit >= 1,
        m < 100 * unit,
    ensures
        nearest(10 * m, unit) <= 1000,
{
    assert(10 * m / unit < 1000) by (nonlinear_arith)
        requires
            unit >= 1,
            10 * m < 1000 * unit,
    ;
}

/// A byte as the right-hand column of a dump shows it.
pub open spec fn shown_byte(b: u8) -> char {
    if 32 <= b < 127 {
        b as char
    } else {
        '.'
    }
}

/// The cells `j..16` of a dump line: two digits per byte, blanks where there is none, and a
/// gap after the eighth.
pub open spec fn dump_cells(chunk: Seq<u8>, j: int) -> Seq<char>
    decreases 16 - j,
{
    if j >= 16 {
        Seq::empty()
    } else {
        (if j < chunk.len() {
            radix(chunk[j] as nat, 16, 2) + " "@
        } else {
            "   "@
        }) + (if j == 7 {
            seq![' ']
        } else {
            Seq::empty()
        }) + dump_cells(chunk, j + 1)
    }
}

/// One line of a dump: offset, bytes in hexadecimal, bytes as characters.
pub open spec fn dump_line(offset: int, chunk: Seq<u8>) -> Seq<char> {
    radix(offset as nat, 16, 8) + "  "@ + dump_cells(chunk, 0) + " |"@ + chunk.map_values(
        |b: u8| shown_byte(b),
    ) + seq!['|', '\n']
}

/// The dump of `data` from offset `from` on, sixteen bytes a line.
pub open spec fn dump_text(data: Seq<u8>, from: int) -> Seq<char>
    decreases data.len() - from,
{
    if from >= data.len() {
        Seq::empty()
    } else {
        let to = if from + 16 <= data.len() {
            from + 16
        } else {
            data.len() as int
        };
        dump_line(from, data.subrange(from, to)) + dump_text(data, to)
    }
}

proof fn lemma_hex_len(n: nat, w: nat)
    requires
        w >= 1,
        n < pow(16, w),
    ensures
        radix(n, 16, w).len() == w,
    decreases w,
{
    reveal_with_fuel(pow, 2);
    if w > 1 {
        let narrower = (w - 1) as nat;
        assert(pow(16, w) == 16 * pow(16, narrower));
        lemma_hex_len(n / 16, narrower);
    }
}

/// The column of a dump line where byte `j` begins.
pub open spec fn column(j: int) -> int {
    if j < 8 {
        10 + 3 * j
    } else {
        11 + 3 * j
    }
}

/// What the cell of byte `k` holds, where the cells begin `from` columns further left.
spec fn cell_holds(cells: Seq<char>, chunk: Seq<u8>, k: int, from: int) -> bool {
    let at = column(k) - from;
    &&& k < chunk.len() ==> cells.subrange(at, at + 2) == radix(chunk[k] as nat, 16, 2)
    &&& k >= chunk.len() ==> cells[at] == ' ' && cells[at + 1] == ' '
    &&& cells[at + 2] == ' '
}

proof fn lemma_first_cell(chunk: Seq<u8>, j: int)
    requires
        0 <= j < 16,
    ensures
        ({
            let cells = dump_cells(chunk, j);
            let rest = dump_cells(chunk, j + 1);
            let gap = column(j + 1) - column(j);
            &&& cells.len() == gap + rest.len()
            &&& forall|i: int| 0 <= i < rest.len() ==> cells[gap + i] == #[trigger] rest[i]
            &&& cell_holds(cells, chunk, j, column(j))
            &&& j == 7 ==> cells[3] == ' '
        }),
{
    reveal_strlit(" ");
    reveal_strlit("   ");
    let cells = dump_cells(chunk, j);
    if j < chunk.len() {
        assert(pow(16, 2) == 256) by {
            reveal_with_fuel(pow, 3);
        }
        lemma_hex_len(chunk[j] as nat, 2);
        assert(cells.subrange(0, 2) =~= radix(chunk[j] as nat, 16, 2));
    }
}

proof fn lemma_cell_further(cells: Seq<char>, rest: Seq<char>, chunk: Seq<u8>, k: int, j: int)
    requires
        0 <= j < k < 16,
        cells.len() == column(j + 1) - column(j) + rest.len(),
        rest.len() == column(16) - column(j + 1),
        forall|i: int|
            0 <= i < rest.len() ==> cells[column(j + 1) - column(j) + i] == #[trigger] rest[i],
        cell_holds(rest, chunk, k, column(j + 1)),
    ensures
        cell_holds(cells, chunk, k, column(j)),
{
    let gap = column(j + 1) - column(j);
    let at = column(k) - column(j + 1);
    assert(rest[at] == cells[gap + at]);
    assert(rest[at + 1] == cells[gap + at + 1]);
    assert(rest[at + 2] == cells[gap + at + 2]);
    if k < chunk.len() {
        assert(cells.subrange(gap + at, gap + at + 2) =~= rest.subrange(at, at + 2));
    }
}

proof fn lemma_cells(chunk: Seq<u8>, j: int)
    requires
        0 <= j <= 16,
    ensures
        dump_cells(chunk, j).len() == column(16) - column(j),
        forall|k: int| j <= k < 16 ==> #[trigger] cell_holds(dump_cells(chunk, j), chunk, k, column(j)),
        j <= 7 ==> dump_cells(chunk, j)[34 - column(j)] == ' ',
    decreases 16 - j,
{
    if j < 16 {
        lemma_cells(chunk, j + 1);
        lemma_first_cell(chunk, j);
        let cells = dump_cells(chunk, j);
        let rest = dump_cells(chunk, j + 1);
        assert forall|k: int| j <= k < 16 implies #[trigger] cell_holds(
            cells,
            chunk,
            k,
            column(j),
        ) by {
            if k > j {
                assert(cell_holds(rest, chunk, k, column(j + 1)));
                lemma_cell_further(cells, rest, chunk, k, j);
            }
        }
        if j < 7 {
            assert(rest[34 - column(j + 1)] == cells[34 - column(j)]);
        }
    } else {
        assert(dump_cells(chunk, j) =~= Seq::empty());
    }
}

/// What stands where in a line of a dump: the offset in the first eight columns; each byte in two
/// columns of its own, with a blank behind it and one more in the middle; and the bytes as
/// characters between bars, a dot for what cannot be shown.
pub proof fn law_columns_of_a_dump_line(offset: int, chunk: Seq<u8>)
    requires
        0 <= offset < 0x1_0000_0000,
        chunk.len() <= 16,
    ensures
        ({
            let s = dump_line(offset, chunk);
            &&& s.len() == 63 + chunk.len()
            &&& s.take(8) == radix(offset as nat, 16, 8)
            &&& s[8] == ' ' && s[9] == ' ' && s[34] == ' '
            &&& forall|j: int|
                #![trigger column(j)]
                0 <= j < 16 ==> {
                    &&& j < chunk.len() ==> s.subrange(column(j), column(j) + 2) == radix(
                        chunk[j] as nat,
                        16,
                        2,
                    )
                    &&& j >= chunk.len() ==> s[column(j)] == ' ' && s[column(j) + 1] == ' '
                    &&& s[column(j) + 2] == ' '
                }
            &&& s[59] == ' ' && s[60] == '|'
            &&& forall|j: int|
                0 <= j < chunk.len() ==> s[61 + j] as int == if 0x20 <= #[trigger] chunk[j] <= 0x7E {
                    chunk[j] as int
                } else {
                    '.' as int
                }
            &&& s[61 + chunk.len() as int] == '|' && s[62 + chunk.len() as int] == '\n'
        }),
{
    reveal_strlit("  ");
    reveal_strlit(" |");
    assert(pow(16, 8) == 0x1_0000_0000) by {
        reveal_with_fuel(pow, 9);
    }
    lemma_hex_len(offset as nat, 8);
    lemma_cells(chunk, 0);
    let s = dump_line(offset, chunk);
    let number = radix(offset as nat, 16, 8);
    let cells = dump_cells(chunk, 0);
    let shown = chunk.map_values(|b: u8| shown_byte(b));
    assert(column(0) == 10 && column(16) == 59);
    assert(s.take(8) =~= number);
    assert forall|i: int| 0 <= i < 49 implies s[10 + i] == #[trigger] cells[i] by {}
    assert(s[34] == cells[24]);
    assert forall|j: int| 0 <= j < 16 implies {
        &&& j < chunk.len() ==> s.subrange(#[trigger] column(j), column(j) + 2) == radix(
            chunk[j] as nat,
            16,
            2,
        )
        &&& j >= chunk.len() ==> s[column(j)] == ' ' && s[column(j) + 1] == ' '
        &&& s[column(j) + 2] == ' '
    } by {
        let at = column(j) - 10;
        assert(cell_holds(cells, chunk, j, column(0)));
        assert(s[10 + at] == cells[at]);
        assert(s[10 + at + 1] == cells[at + 1]);
        assert(s[10 + at + 2] == cells[at + 2]);
        if j < chunk.len() {
            assert(s.subrange(column(j), column(j) + 2) =~= cells.subrange(at, at + 2));
        }
    }
    assert forall|j: int| 0 <= j < chunk.len() implies s[61 + j] as int == if 0x20
        <= #[trigger] chunk[j] <= 0x7E {
        chunk[j] as int
    } else {
        '.' as int
    } by {
        assert(s[61 + j] == shown[j]);
    }
}

/// The bytes of line `k` of a dump.
pub open spec fn line_bytes(data: Seq<u8>, k: int) -> Seq<u8> {
    data.subrange(
        16 * k,
        if 16 * k + 16 <= data.len() {
            16 * k + 16
        } else {
            data.len() as int
        },
    )
}

/// A dump has a line for every sixteen bytes, and one for the rest.
pub proof fn law_lines_of_a_dump(data: Seq<u8>, n: int)
    requires
        0 <= n,
        16 * (n - 1) < data.len() <= 16 * n,
    ensures
        dump_text(data, 0) == Seq::new(
            n as nat,
            |k: int| dump_line(16 * k, line_bytes(data, k)),
        ).flatten(),
{
    lemma_lines(data, n, 0);
    let lines = Seq::new(n as nat, |k: int| dump_line(16 * k, line_bytes(data, k)));
    assert(lines.skip(0) =~= lines);
}

proof fn lemma_lines(data: Seq<u8>, n: int, k: int)
    requires
        0 <= k <= n,
        16 * (n - 1) < data.len() <= 16 * n,
    ensures
        dump_text(data, 16 * k) == Seq::new(
            n as nat,
            |k: int| dump_line(16 * k, line_bytes(data, k)),
        ).skip(k).flatten(),
    decreases n - k,
{
    let lines = Seq::new(n as nat, |k: int| dump_line(16 * k, line_bytes(data, k)));
    if k < n {
        lemma_lines(data, n, k + 1);
        assert(lines.skip(k).drop_first() =~= lines.skip(k + 1));
        assert(lines.skip(k).first() == dump_line(16 * k, line_bytes(data, k)));
        if 16 * k + 16 > data.len() {
            assert(dump_text(data, data.len() as int) =~= Seq::empty());
            assert(dump_text(data, 16 * (k + 1)) =~= Seq::empty());
        }
    } else {
        assert(lines.skip(k) =~= Seq::empty());
    }
}

fn push_line(s: &mut String, data: &[u8], from: usize, to: usize)
    requires
        from < to <= data@.len(),
        to <= from + 16,
    ensures
        final(s)@ == old(s)@ + dump_line(from as int, data@.subrange(from as int, to as int)),
{
    let ghost chunk = data@.subrange(from as int, to as int);
    let ghost head = old(s)@ + radix(from as nat, 16, 8) + "  "@;
    push_radix(s, from as u64, 16, 8);
    s.append("  ");
    let n: usize = to - from;
    let mut j: usize = 0;
    assert(s@ + dump_cells(chunk, 0) =~= head + dump_cells(chunk, 0));
    while j < 16
        invariant
            j <= 16,
            from < to <= data@.len(),
            n == to - from,
            chunk == data@.subrange(from as int, to as int),
            s@ + dump_cells(chunk, j as int) == head + dump_cells(chunk, 0),
        decreases 16 - j,
    {
        let ghost before = s@;
        let ghost rest = dump_cells(chunk, j + 1);
        if j < n {
            push_radix(s, data[from + j] as u64, 16, 2);
            s.append(" ");
        } else {
            s.append("   ");
        }
        if j == 7 {
            s.push(' ');
        }
        assert(before + dump_cells(chunk, j as int) =~= s@ + rest);
        j = j + 1;
    }
    assert(s@ =~= head + dump_cells(chunk, 0));
    s.append(" |");
    let ghost front = s@;
    let ghost shown = chunk.map_values(|b: u8| shown_byte(b));
    let mut i: usize = 0;
    assert(s@ =~= front + shown.take(0));
    while i < n
        invariant
            i <= n,
            from < to <= data@.len(),
            n == to - from,
            chunk == data@.subrange(from as int, to as int),
            shown == chunk.map_values(|b: u8| shown_byte(b)),
            s@ == front + shown.take(i as int),
        decreases n - i,
    {
        let b: u8 = data[from + i];
        let c: char = if 32 <= b && b < 127 {
            b as char
        } else {
            '.'
        };
        s.push(c);
        assert(shown.take(i + 1) =~= shown.take(i as int).push(c));
        assert(s@ =~= front + shown.take(i + 1));
        i = i + 1;
    }
    assert(shown.take(n as int) =~= shown);
    s.push('|');
    s.push('\n');
    assert(s@ =~= old(s)@ + dump_line(from as int, chunk));
}

/// Dumps bytes in hexadecimal, sixteen a line.
pub fn hex_dump(data: &[u8]) -> (s: String)
    ensures
        s@ == dump_text(data@, 0),
{
    let mut s = String::new();
    let mut from: usize = 0;
    let len: usize = data.len();
    assert(s@ + dump_text(data@, 0) =~= dump_text(data@, 0));
    while from < len
        invariant
            len == data@.len(),
            from <= len,
            dump_text(data@, 0) == s@ + dump_text(data@, from as int),
        decreases len - from,
    {
        let to: usize = if len - from >= 16 {
            from + 16
        } else {
            len
        };
        let ghost before = s@;
        push_line(&mut s, data, from, to);
        proof {
            let rest = dump_text(data@, to as int);
            let line = dump_line(from as int, data@.subrange(from as int, to as int));
            assert(before + (line + rest) =~= s@ + rest);
        }
        from = to;
    }
    assert(s@ + Seq::<char>::empty() =~= s@);
    s
}

/// What a directory entry's file type is called.
pub open spec fn kind_name(ft: u8) -> Seq<char> {
    if ft == 2 {
        "dir"@
    } else if ft == 7 {
        "link"@
    } else if ft == 3 {
        "char"@
    } else if ft == 4 {
        "blk"@
    } else if ft == 5 {
        "fifo"@
    } else if ft == 6 {
        "sock"@
    } else {
        "file"@
    }
}

/// The types of files by number. What is not among them is shown as a file.
pub proof fn law_names_of_types(ft: u8)
    ensures
        ({
            let names = seq![
                "file"@,
                "file"@,
                "dir"@,
                "char"@,
                "blk"@,
                "fifo"@,
                "sock"@,
                "link"@,
            ];
            kind_name(ft) == if ft < 8 {
                names[ft as int]
            } else {
                "file"@
            }
        }),
{
}

/// The label of a directory entry's file type.
pub fn type_label(ft: u8) -> (s: &'static str)
    ensures
        s@ == kind_name(ft),
{
    if ft == 2 {
        "dir"
    } else if ft == 7 {
        "link"
    } else if ft == 3 {
        "char"
    } else if ft == 4 {
        "blk"
    } else if ft == 5 {
        "fifo"
    } else if ft == 6 {
        "sock"
    } else {
        "file"
    }
}

} // verus!
