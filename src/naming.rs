//! Archive file names: the UTC second at which an archive was written, as
//! `YYYY-MM-DD-HH-MM-SS.bin`, so that names sort in the order of time.

use vstd::prelude::*;
use vstd::string::StringExecFns;

verus! {

/// A UTC time to the second.
#[derive(Debug, Clone, Copy, PartialEq, Eq, Structural)]
pub struct ArchiveStamp {
    /// The year, 0 to 9999.
    pub year: u16,
    /// The month, 1 to 12.
    pub month: u8,
    /// The day of the month, 1 to 31.
    pub day: u8,
    /// The hour, 0 to 23.
    pub hour: u8,
    /// The minute, 0 to 59.
    pub minute: u8,
    /// The second, 0 to 59.
    pub second: u8,
}

impl ArchiveStamp {
    /// Every field is in its range.
    pub open spec fn valid(self) -> bool {
        &&& self.year <= 9999
        &&& 1 <= self.month <= 12
        &&& 1 <= self.day <= 31
        &&& self.hour <= 23
        &&& self.minute <= 59
        &&& self.second <= 59
    }

    /// `self` is an earlier second than `other`.
    pub open spec fn before(self, other: ArchiveStamp) -> bool {
        ||| self.year < other.year
        ||| self.year == other.year && self.month < other.month
        ||| self.year == other.year && self.month == other.month && self.day < other.day
        ||| self.year == other.year && self.month == other.month && self.day == other.day
            && self.hour < other.hour
        ||| self.year == other.year && self.month == other.month && self.day == other.day
            && self.hour == other.hour && self.minute < other.minute
        ||| self.year == other.year && self.month == other.month && self.day == other.day
            && self.hour == other.hour && self.minute == other.minute && self.second
            < other.second
    }

    /// Tells whether every field is in its range.
    pub fn is_valid(&self) -> (r: bool)
        ensures
            r == self.valid(),
    {
        self.year <= 9999 && 1 <= self.month && self.month <= 12 && 1 <= self.day && self.day
            <= 31 && self.hour <= 23 && self.minute <= 59 && self.second <= 59
    }
}

/// The decimal digit `d`.
pub open spec fn digit_char(d: int) -> char {
    if d == 0 {
        '0'
    } else if d == 1 {
        '1'
    } else if d == 2 {
        '2'
    } else if d == 3 {
        '3'
    } else if d == 4 {
        '4'
    } else if d == 5 {
        '5'
    } else if d == 6 {
        '6'
    } else if d == 7 {
        '7'
    } else if d == 8 {
        '8'
    } else {
        '9'
    }
}

/// `n`, below 100, in two digits.
pub open spec fn two_digits(n: int) -> Seq<char> {
    seq![digit_char(n / 10), digit_char(n % 10)]
}

/// `n`, below 10000, in four digits.
pub open spec fn four_digits(n: int) -> Seq<char> {
    seq![digit_char(n / 1000), digit_char((n / 100) % 10), digit_char((n / 10) % 10), digit_char(n % 10)]
}

/// The time `s` as `YYYY-MM-DD-HH-MM-SS`.
pub open spec fn stamp_text(s: ArchiveStamp) -> Seq<char> {
    four_digits(s.year as int) + seq!['-'] + two_digits(s.month as int) + seq!['-'] + two_digits(
        s.day as int,
    ) + seq!['-'] + two_digits(s.hour as int) + seq!['-'] + two_digits(s.minute as int) + seq!['-']
        + two_digits(s.second as int)
}

/// The name of the archive written at `s`.
pub open spec fn archive_name(s: ArchiveStamp) -> Seq<char> {
    stamp_text(s) + ".bin"@
}

/// The decimal digit `d`, below 10, as text.
fn digit_str(d: u16) -> (r: &'static str)
    requires
        d < 10,
    ensures
        r@ == seq![digit_char(d as int)],
{
    proof {
        reveal_strlit("0");
        reveal_strlit("1");
        reveal_strlit("2");
        reveal_strlit("3");
        reveal_strlit("4");
        reveal_strlit("5");
        reveal_strlit("6");
        reveal_strlit("7");
        reveal_strlit("8");
        reveal_strlit("9");
    }
    if d == 0 {
        "0"
    } else if d == 1 {
        "1"
    } else if d == 2 {
        "2"
    } else if d == 3 {
        "3"
    } else if d == 4 {
        "4"
    } else if d == 5 {
        "5"
    } else if d == 6 {
        "6"
    } else if d == 7 {
        "7"
    } else if d == 8 {
        "8"
    } else {
        "9"
    }
}

/// Appends `n`, below 100, in two digits.
fn push_two(out: &mut String, n: u8)
    requires
        n < 100,
    ensures
        final(out)@ == old(out)@ + two_digits(n as int),
{
    out.append(digit_str((n / 10) as u16));
    out.append(digit_str((n % 10) as u16));
    assert(final(out)@ =~= old(out)@ + two_digits(n as int));
}

/// Appends a dash.
fn push_dash(out: &mut String)
    ensures
        final(out)@ == old(out)@ + seq!['-'],
{
    proof {
        reveal_strlit("-");
    }
    out.append("-");
}

/// The time `stamp` as `YYYY-MM-DD-HH-MM-SS`.
pub fn stamp_string(stamp: &ArchiveStamp) -> (r: String)
    requires
        stamp.valid(),
    ensures
        r@ == stamp_text(*stamp),
{
    let y = stamp.year;
    let mut out = String::new();
    out.append(digit_str(y / 1000));
    out.append(digit_str((y / 100) % 10));
    out.append(digit_str((y / 10) % 10));
    out.append(digit_str(y % 10));
    assert(out@ =~= four_digits(y as int));
    push_dash(&mut out);
    push_two(&mut out, stamp.month);
    push_dash(&mut out);
    push_two(&mut out, stamp.day);
    push_dash(&mut out);
    push_two(&mut out, stamp.hour);
    push_dash(&mut out);
    push_two(&mut out, stamp.minute);
    push_dash(&mut out);
    push_two(&mut out, stamp.second);
    assert(out@ =~= stamp_text(*stamp));
    out
}

/// The name of the archive written at `stamp`.
pub fn archive_file_name(stamp: &ArchiveStamp) -> (r: String)
    requires
        stamp.valid(),
    ensures
        r@ == archive_name(*stamp),
{
    let mut out = stamp_string(stamp);
    out.append(".bin");
    out
}

/// The digit `d` is the character `'0'` plus `d`.
proof fn lemma_digit_char(d: int)
    requires
        0 <= d <= 9,
    ensures
        digit_char(d) as u32 == 48 + d,
{
}

/// `a` comes before `b` in character order: they agree up to a position
/// where `a` holds the smaller character.
pub open spec fn text_before(a: Seq<char>, b: Seq<char>) -> bool {
    exists|i: int|
        #![trigger a[i], b[i]]
        0 <= i < a.len() && i < b.len() && a.subrange(0, i) == b.subrange(0, i) && (a[i] as u32)
            < (b[i] as u32)
}

/// Texts made of parts of equal length compare by their first parts, then
/// by the rest.
proof fn lemma_before_concat(x1: Seq<char>, x2: Seq<char>, y1: Seq<char>, y2: Seq<char>)
    requires
        x1.len() == y1.len(),
    ensures
        text_before(x1 + x2, y1 + y2) <==> (text_before(x1, y1) || (x1 == y1 && text_before(
            x2,
            y2,
        ))),
{
    let a = x1 + x2;
    let b = y1 + y2;
    let n = x1.len() as int;
    if text_before(a, b) {
        let i = choose|i: int|
            #![trigger a[i], b[i]]
            0 <= i < a.len() && i < b.len() && a.subrange(0, i) == b.subrange(0, i) && (a[i]
                as u32) < (b[i] as u32);
        if i < n {
            assert(x1.subrange(0, i) =~= a.subrange(0, i));
            assert(y1.subrange(0, i) =~= b.subrange(0, i));
            assert(x1[i] == a[i] && y1[i] == b[i]);
        } else {
            let j = i - n;
            assert(x1 =~= a.subrange(0, i).subrange(0, n));
            assert(y1 =~= b.subrange(0, i).subrange(0, n));
            assert(x2.subrange(0, j) =~= a.subrange(0, i).subrange(n, i));
            assert(y2.subrange(0, j) =~= b.subrange(0, i).subrange(n, i));
            assert(x2[j] == a[i] && y2[j] == b[i]);
        }
    }
    if text_before(x1, y1) {
        let i = choose|i: int|
            #![trigger x1[i], y1[i]]
            0 <= i < x1.len() && i < y1.len() && x1.subrange(0, i) == y1.subrange(0, i) && (x1[i]
                as u32) < (y1[i] as u32);
        assert(a.subrange(0, i) =~= x1.subrange(0, i));
        assert(b.subrange(0, i) =~= y1.subrange(0, i));
        assert(a[i] == x1[i] && b[i] == y1[i]);
    }
    if x1 == y1 && text_before(x2, y2) {
        let j = choose|j: int|
            #![trigger x2[j], y2[j]]
            0 <= j < x2.len() && j < y2.len() && x2.subrange(0, j) == y2.subrange(0, j) && (x2[j]
                as u32) < (y2[j] as u32);
        let i = n + j;
        assert(a.subrange(0, i) =~= x1 + x2.subrange(0, j));
        assert(b.subrange(0, i) =~= y1 + y2.subrange(0, j));
        assert(a[i] == x2[j] && b[i] == y2[j]);
    }
}

/// Two digits compare as the numbers they write.
proof fn lemma_two_digits(n: int, m: int)
    requires
        0 <= n < 100,
        0 <= m < 100,
    ensures
        text_before(two_digits(n), two_digits(m)) <==> n < m,
        two_digits(n) == two_digits(m) <==> n == m,
{
    lemma_digit_char(n / 10);
    lemma_digit_char(n % 10);
    lemma_digit_char(m / 10);
    lemma_digit_char(m % 10);
    let a = two_digits(n);
    let b = two_digits(m);
    assert(a =~= seq![digit_char(n / 10)] + seq![digit_char(n % 10)]);
    assert(b =~= seq![digit_char(m / 10)] + seq![digit_char(m % 10)]);
    lemma_before_concat(seq![digit_char(n / 10)], seq![digit_char(n % 10)], seq![digit_char(m / 10)], seq![digit_char(m % 10)]);
    lemma_single(digit_char(n / 10), digit_char(m / 10));
    lemma_single(digit_char(n % 10), digit_char(m % 10));
    if a == b {
        assert(a[0] == b[0] && a[1] == b[1]);
    }
}

/// One character comes before another by its code.
proof fn lemma_single(c: char, d: char)
    ensures
        text_before(seq![c], seq![d]) <==> (c as u32) < (d as u32),
        seq![c] == seq![d] <==> c == d,
{
    if (c as u32) < (d as u32) {
        assert(seq![c].subrange(0, 0) =~= seq![d].subrange(0, 0));
        assert(seq![c][0] == c && seq![d][0] == d);
    }
    if seq![c] == seq![d] {
        assert(seq![c][0] == seq![d][0]);
    }
}

/// The digits of a number below 10000 are those of its hundreds and of its
/// remainder.
proof fn lemma_split_hundreds(n: int)
    requires
        0 <= n < 10000,
    ensures
        n / 1000 == (n / 100) / 10,
        (n / 10) % 10 == (n % 100) / 10,
        n % 10 == (n % 100) % 10,
        n == 100 * (n / 100) + n % 100,
        0 <= n / 100 < 100,
        0 <= n % 100 < 100,
{
    assert(n / 1000 == (n / 100) / 10) by (nonlinear_arith)
        requires
            0 <= n,
    ;
    assert((n / 10) % 10 == (n % 100) / 10) by (nonlinear_arith)
        requires
            0 <= n,
    ;
    assert(n % 10 == (n % 100) % 10) by (nonlinear_arith)
        requires
            0 <= n,
    ;
    assert(n == 100 * (n / 100) + n % 100) by (nonlinear_arith);
    assert(0 <= n / 100 < 100) by (nonlinear_arith)
        requires
            0 <= n < 10000,
    ;
}

/// Four digits compare as the numbers they write.
proof fn lemma_four_digits(n: int, m: int)
    requires
        0 <= n < 10000,
        0 <= m < 10000,
    ensures
        text_before(four_digits(n), four_digits(m)) <==> n < m,
        four_digits(n) == four_digits(m) <==> n == m,
{
    lemma_split_hundreds(n);
    lemma_split_hundreds(m);
    assert(four_digits(n) =~= two_digits(n / 100) + two_digits(n % 100));
    assert(four_digits(m) =~= two_digits(m / 100) + two_digits(m % 100));
    assert(n == 100 * (n / 100) + n % 100);
    assert(m == 100 * (m / 100) + m % 100);
    lemma_two_digits(n / 100, m / 100);
    lemma_two_digits(n % 100, m % 100);
    lemma_before_concat(two_digits(n / 100), two_digits(n % 100), two_digits(m / 100), two_digits(m % 100));
    if four_digits(n) == four_digits(m) {
        assert(two_digits(n / 100) =~= four_digits(n).subrange(0, 2));
        assert(two_digits(m / 100) =~= four_digits(m).subrange(0, 2));
        assert(two_digits(n % 100) =~= four_digits(n).subrange(2, 4));
        assert(two_digits(m % 100) =~= four_digits(m).subrange(2, 4));
    }
}

/// A dash and two digits, as each field after the year is written.
pub open spec fn dashed(n: int) -> Seq<char> {
    seq!['-'] + two_digits(n)
}

/// A dashed field compares as its number.
proof fn lemma_dashed(n: int, m: int)
    requires
        0 <= n < 100,
        0 <= m < 100,
    ensures
        text_before(dashed(n), dashed(m)) <==> n < m,
        dashed(n) == dashed(m) <==> n == m,
{
    lemma_two_digits(n, m);
    lemma_before_concat(seq!['-'], two_digits(n), seq!['-'], two_digits(m));
    if dashed(n) == dashed(m) {
        assert(two_digits(n) =~= dashed(n).subrange(1, 3));
        assert(two_digits(m) =~= dashed(m).subrange(1, 3));
    }
}

/// Archive names sort in the order of the seconds they were written at:
/// of two valid times, the earlier one has the name that comes first.
pub proof fn lemma_names_in_time_order(a: ArchiveStamp, b: ArchiveStamp)
    requires
        a.valid(),
        b.valid(),
    ensures
        a.before(b) <==> text_before(archive_name(a), archive_name(b)),
{
    let ext = ".bin"@;
    let ta = stamp_text(a);
    let tb = stamp_text(b);
    let s5a = dashed(a.second as int);
    let s5b = dashed(b.second as int);
    let s4a = dashed(a.minute as int) + s5a;
    let s4b = dashed(b.minute as int) + s5b;
    let s3a = dashed(a.hour as int) + s4a;
    let s3b = dashed(b.hour as int) + s4b;
    let s2a = dashed(a.day as int) + s3a;
    let s2b = dashed(b.day as int) + s3b;
    let s1a = dashed(a.month as int) + s2a;
    let s1b = dashed(b.month as int) + s2b;
    assert(archive_name(a) =~= four_digits(a.year as int) + (s1a + ext));
    assert(archive_name(b) =~= four_digits(b.year as int) + (s1b + ext));
    assert(s1a + ext =~= dashed(a.month as int) + (s2a + ext));
    assert(s1b + ext =~= dashed(b.month as int) + (s2b + ext));
    assert(s2a + ext =~= dashed(a.day as int) + (s3a + ext));
    assert(s2b + ext =~= dashed(b.day as int) + (s3b + ext));
    assert(s3a + ext =~= dashed(a.hour as int) + (s4a + ext));
    assert(s3b + ext =~= dashed(b.hour as int) + (s4b + ext));
    assert(s4a + ext =~= dashed(a.minute as int) + (s5a + ext));
    assert(s4b + ext =~= dashed(b.minute as int) + (s5b + ext));
    lemma_four_digits(a.year as int, b.year as int);
    lemma_dashed(a.month as int, b.month as int);
    lemma_dashed(a.day as int, b.day as int);
    lemma_dashed(a.hour as int, b.hour as int);
    lemma_dashed(a.minute as int, b.minute as int);
    lemma_dashed(a.second as int, b.second as int);
    lemma_before_concat(s5a, ext, s5b, ext);
    lemma_before_concat(dashed(a.minute as int), s5a + ext, dashed(b.minute as int), s5b + ext);
    lemma_before_concat(dashed(a.hour as int), s4a + ext, dashed(b.hour as int), s4b + ext);
    lemma_before_concat(dashed(a.day as int), s3a + ext, dashed(b.day as int), s3b + ext);
    lemma_before_concat(dashed(a.month as int), s2a + ext, dashed(b.month as int), s2b + ext);
    lemma_before_concat(four_digits(a.year as int), s1a + ext, four_digits(b.year as int), s1b + ext);
}

/// `a` is at most `b` in byte order: a prefix comes first, and otherwise
/// the first differing byte decides.
pub open spec fn bytes_le(a: Seq<u8>, b: Seq<u8>) -> bool
    decreases a.len(),
{
    if a.len() == 0 {
        true
    } else if b.len() == 0 {
        false
    } else if a[0] != b[0] {
        a[0] < b[0]
    } else {
        bytes_le(a.subrange(1, a.len() as int), b.subrange(1, b.len() as int))
    }
}

/// Of two byte strings, one is at most the other.
proof fn lemma_bytes_le_total(a: Seq<u8>, b: Seq<u8>)
    ensures
        bytes_le(a, b) || bytes_le(b, a),
    decreases a.len(),
{
    if a.len() > 0 && b.len() > 0 && a[0] == b[0] {
        lemma_bytes_le_total(a.subrange(1, a.len() as int), b.subrange(1, b.len() as int));
    }
}

/// Byte order is transitive.
proof fn lemma_bytes_le_trans(a: Seq<u8>, b: Seq<u8>, c: Seq<u8>)
    requires
        bytes_le(a, b),
        bytes_le(b, c),
    ensures
        bytes_le(a, c),
    decreases a.len(),
{
    if a.len() > 0 && b.len() > 0 && c.len() > 0 && a[0] == b[0] && b[0] == c[0] {
        lemma_bytes_le_trans(
            a.subrange(1, a.len() as int),
            b.subrange(1, b.len() as int),
            c.subrange(1, c.len() as int),
        );
    }
}

/// Tells whether `a` is at most `b` in byte order.
fn bytes_at_most(a: &[u8], b: &[u8]) -> (r: bool)
    ensures
        r == bytes_le(a@, b@),
{
    let mut i: usize = 0;
    assert(a@.subrange(0, a@.len() as int) =~= a@);
    assert(b@.subrange(0, b@.len() as int) =~= b@);
    while i < a.len() && i < b.len()
        invariant
            i <= a@.len(),
            i <= b@.len(),
            bytes_le(a@, b@) == bytes_le(
                a@.subrange(i as int, a@.len() as int),
                b@.subrange(i as int, b@.len() as int),
            ),
        decreases a.len() - i,
    {
        let ghost ra = a@.subrange(i as int, a@.len() as int);
        let ghost rb = b@.subrange(i as int, b@.len() as int);
        assert(ra[0] == a@[i as int] && rb[0] == b@[i as int]);
        if a[i] != b[i] {
            return a[i] < b[i];
        }
        assert(ra.subrange(1, ra.len() as int) =~= a@.subrange(i + 1, a@.len() as int));
        assert(rb.subrange(1, rb.len() as int) =~= b@.subrange(i + 1, b@.len() as int));
        i = i + 1;
    }
    i == a.len()
}

/// The order in which to read archive files, given their names: the
/// positions of the names, each once, sorted by name in byte order.
pub fn archive_read_order(names: &Vec<Vec<u8>>) -> (order: Vec<usize>)
    ensures
        order@.len() == names@.len(),
        forall|i: int| 0 <= i < order@.len() ==> #[trigger] order@[i] < names@.len(),
        forall|i: int, j: int|
            0 <= i < j < order@.len() ==> #[trigger] order@[i] != #[trigger] order@[j],
        forall|i: int, j: int|
            0 <= i < j < order@.len() ==> bytes_le(
                #[trigger] names@[order@[i] as int]@,
                #[trigger] names@[order@[j] as int]@,
            ),
{
    let mut order: Vec<usize> = Vec::new();
    let mut k: usize = 0;
    while k < names.len()
        invariant
            k <= names@.len(),
            order@.len() == k,
            forall|i: int| 0 <= i < order@.len() ==> #[trigger] order@[i] < k,
            forall|i: int, j: int|
                0 <= i < j < order@.len() ==> #[trigger] order@[i] != #[trigger] order@[j],
            forall|i: int, j: int|
                0 <= i < j < order@.len() ==> bytes_le(
                    #[trigger] names@[order@[i] as int]@,
                    #[trigger] names@[order@[j] as int]@,
                ),
        decreases names.len() - k,
    {
        let ghost key = names@[k as int]@;
        let mut pos: usize = 0;
        while pos < order.len() && bytes_at_most(names[order[pos]].as_slice(), names[k].as_slice())
            invariant
                k < names@.len(),
                key == names@[k as int]@,
                pos <= order@.len(),
                order@.len() == k,
                forall|i: int| 0 <= i < order@.len() ==> #[trigger] order@[i] < k,
                forall|i: int| 0 <= i < pos ==> bytes_le(#[trigger] names@[order@[i] as int]@, key),
            decreases order.len() - pos,
        {
            pos = pos + 1;
        }
        let ghost old_order = order@;
        proof {
            if pos < old_order.len() {
                let first = names@[old_order[pos as int] as int]@;
                lemma_bytes_le_total(first, key);
                assert forall|j: int| pos <= j < old_order.len() implies bytes_le(
                    key,
                    #[trigger] names@[old_order[j] as int]@,
                ) by {
                    if j > pos {
                        lemma_bytes_le_trans(key, first, names@[old_order[j] as int]@);
                    }
                }
            }
        }
        order.insert(pos, k);
        assert(order@ == old_order.insert(pos as int, k));
        assert forall|i: int, j: int| 0 <= i < j < order@.len() implies bytes_le(
            #[trigger] names@[order@[i] as int]@,
            #[trigger] names@[order@[j] as int]@,
        ) by {
            if j < pos {
                assert(order@[i] == old_order[i] && order@[j] == old_order[j]);
            } else if j == pos {
                assert(order@[i] == old_order[i]);
            } else if i < pos {
                assert(order@[i] == old_order[i] && order@[j] == old_order[j - 1]);
                lemma_bytes_le_trans(
                    names@[old_order[i] as int]@,
                    key,
                    names@[old_order[j - 1] as int]@,
                );
            } else if i == pos {
                assert(order@[j] == old_order[j - 1]);
            } else {
                assert(order@[i] == old_order[i - 1] && order@[j] == old_order[j - 1]);
            }
        }
        assert forall|i: int, j: int| 0 <= i < j < order@.len() implies #[trigger] order@[i]
            != #[trigger] order@[j] by {
            if j < pos {
                assert(order@[i] == old_order[i] && order@[j] == old_order[j]);
            } else if j == pos {
                assert(order@[i] == old_order[i]);
            } else if i < pos {
                assert(order@[i] == old_order[i] && order@[j] == old_order[j - 1]);
            } else if i == pos {
                assert(order@[j] == old_order[j - 1]);
            } else {
                assert(order@[i] == old_order[i - 1] && order@[j] == old_order[j - 1]);
            }
        }
        k = k + 1;
    }
    order
}

} // verus!
