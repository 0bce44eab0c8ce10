//! Parsing of the sales `csv` (one purchase per line, after a header line).
//!
//! The format is stated over the UTF-8 bytes of the text: lines end at `\n`
//! (a `\r` right before it belongs to the line ending), fields are separated
//! by `,`, the timestamp and the product code are decimal `u32`s (with an
//! optional leading `+`), and the product name loses the white space at its
//! two ends. A line that does not fit is skipped.
use vstd::prelude::*;
use vstd::string::StringSliceAdditionalSpecFns;
use vstd::utf8::*;

verus! {

broadcast use vstd::utf8::group_utf8_lib;

pub const NEWLINE: u8 = 10;

pub const CARRIAGE_RETURN: u8 = 13;

pub const COMMA: u8 = 44;

pub const PLUS: u8 = 43;

/// Index of the first `c` in `b`, or `b.len()` when there is none.
pub open spec fn find_byte(b: Seq<u8>, c: u8) -> int
    decreases b.len(),
{
    if b.len() == 0 {
        0
    } else if b[0] == c {
        0
    } else {
        1 + find_byte(b.drop_first(), c)
    }
}

pub proof fn lemma_find_byte_range(b: Seq<u8>, c: u8)
    ensures
        0 <= find_byte(b, c) <= b.len(),
    decreases b.len(),
{
    if b.len() > 0 && b[0] != c {
        lemma_find_byte_range(b.drop_first(), c);
    }
}

/// `line` without a final `\r`, the rest of a `\r\n` line ending.
pub open spec fn strip_cr(line: Seq<u8>) -> Seq<u8> {
    if line.len() > 0 && line.last() == CARRIAGE_RETURN {
        line.drop_last()
    } else {
        line
    }
}

/// The lines of `b`, as `str::lines` yields them: split after each `\n`,
/// the `\n` (and a `\r` right before it) removed; no line after a final `\n`.
pub open spec fn lines_of(b: Seq<u8>) -> Seq<Seq<u8>>
    decreases b.len(),
{
    if b.len() == 0 {
        seq![]
    } else {
        let e = find_byte(b, NEWLINE);
        proof {
            lemma_find_byte_range(b, NEWLINE);
        }
        if e >= b.len() {
            seq![b]
        } else {
            seq![strip_cr(b.take(e))] + lines_of(b.skip(e + 1))
        }
    }
}

/// The fields of `b` separated by `,`, as `str::split(',')` yields them
/// (there is always at least one).
pub open spec fn fields_of(b: Seq<u8>) -> Seq<Seq<u8>>
    decreases b.len(),
{
    let e = find_byte(b, COMMA);
    proof {
        lemma_find_byte_range(b, COMMA);
    }
    if e >= b.len() {
        seq![b]
    } else {
        seq![b.take(e)] + fields_of(b.skip(e + 1))
    }
}

pub open spec fn is_digit(c: u8) -> bool {
    48 <= c <= 57
}

pub open spec fn all_digits(d: Seq<u8>) -> bool {
    forall|i: int| 0 <= i < d.len() ==> is_digit(#[trigger] d[i])
}

/// The number written by the decimal digits `d`.
pub open spec fn digits_value(d: Seq<u8>) -> nat
    decreases d.len(),
{
    if d.len() == 0 {
        0
    } else {
        digits_value(d.drop_last()) * 10 + (d.last() - 48) as nat
    }
}

/// `u32::from_str` on `f`: an optional `+`, then at least one decimal digit
/// and nothing else, with a value that fits in a `u32`.
pub open spec fn parse_u32_spec(f: Seq<u8>) -> Option<u32> {
    let d = if f.len() > 0 && f[0] == PLUS {
        f.drop_first()
    } else {
        f
    };
    if d.len() > 0 && all_digits(d) && digits_value(d) <= u32::MAX {
        Some(digits_value(d) as u32)
    } else {
        None
    }
}

/// A byte that is a white-space character on its own: `\t`, `\n`, vertical
/// tab, form feed, `\r` and space.
pub open spec fn is_ascii_white_space(c: u8) -> bool {
    (9 <= c <= 13) || c == 32
}

/// The three-byte UTF-8 encodings of white-space characters: U+1680,
/// U+2000 to U+200A, U+2028, U+2029, U+202F, U+205F and U+3000.
pub open spec fn is_white_space3(a: u8, b: u8, c: u8) -> bool {
    ||| (a == 0xE1 && b == 0x9A && c == 0x80)
    ||| (a == 0xE2 && b == 0x80 && ((0x80 <= c <= 0x8A) || c == 0xA8 || c == 0xA9 || c == 0xAF))
    ||| (a == 0xE2 && b == 0x81 && c == 0x9F)
    ||| (a == 0xE3 && b == 0x80 && c == 0x80)
}

/// The two-byte UTF-8 encodings of white-space characters: U+0085, U+00A0.
pub open spec fn is_white_space2(a: u8, b: u8) -> bool {
    a == 0xC2 && (b == 0x85 || b == 0xA0)
}

/// The length of the encoding of a white-space character (Unicode
/// `White_Space`) that `b` starts with, or 0.
pub open spec fn white_space_prefix(b: Seq<u8>) -> int {
    if b.len() >= 1 && is_ascii_white_space(b[0]) {
        1
    } else if b.len() >= 2 && is_white_space2(b[0], b[1]) {
        2
    } else if b.len() >= 3 && is_white_space3(b[0], b[1], b[2]) {
        3
    } else {
        0
    }
}

/// The length of the encoding of a white-space character that `b` ends
/// with, or 0.
pub open spec fn white_space_suffix(b: Seq<u8>) -> int {
    let n = b.len() as int;
    if n >= 1 && is_ascii_white_space(b[n - 1]) {
        1
    } else if n >= 2 && is_white_space2(b[n - 2], b[n - 1]) {
        2
    } else if n >= 3 && is_white_space3(b[n - 3], b[n - 2], b[n - 1]) {
        3
    } else {
        0
    }
}

/// `b` without the white-space characters it starts with.
pub open spec fn trim_start_bytes(b: Seq<u8>) -> Seq<u8>
    decreases b.len(),
{
    let l = white_space_prefix(b);
    if l > 0 {
        trim_start_bytes(b.skip(l))
    } else {
        b
    }
}

/// `b` without the white-space characters it ends with.
pub open spec fn trim_end_bytes(b: Seq<u8>) -> Seq<u8>
    decreases b.len(),
{
    let l = white_space_suffix(b);
    if l > 0 {
        trim_end_bytes(b.take(b.len() - l))
    } else {
        b
    }
}

/// `str::trim` on the text whose UTF-8 encoding is `b`.
pub open spec fn trim_bytes(b: Seq<u8>) -> Seq<u8> {
    trim_end_bytes(trim_start_bytes(b))
}

/// What a line means: timestamp, client code, product code and product name.
pub open spec fn parse_line_spec(line: Seq<u8>) -> Option<(u32, Seq<u8>, u32, Seq<u8>)> {
    let f = fields_of(line);
    if f.len() >= 4 && parse_u32_spec(f[0]) is Some && parse_u32_spec(f[2]) is Some {
        Some((parse_u32_spec(f[0])->0, f[1], parse_u32_spec(f[2])->0, trim_bytes(f[3])))
    } else {
        None
    }
}

/// The records of the lines `ls`, skipping the lines that do not parse.
pub open spec fn records_of_lines(ls: Seq<Seq<u8>>) -> Seq<(u32, Seq<u8>, u32, Seq<u8>)>
    decreases ls.len(),
{
    if ls.len() == 0 {
        seq![]
    } else {
        let head = match parse_line_spec(ls[0]) {
            Some(r) => seq![r],
            None => seq![],
        };
        head + records_of_lines(ls.drop_first())
    }
}

/// The records of a whole `csv`: every line but the first (the header).
pub open spec fn parse_spec(csv: Seq<u8>) -> Seq<(u32, Seq<u8>, u32, Seq<u8>)> {
    let ls = lines_of(csv);
    if ls.len() == 0 {
        seq![]
    } else {
        records_of_lines(ls.drop_first())
    }
}

/// Splitting right after a first scalar of `w` bytes lands on a character
/// boundary.
proof fn lemma_boundary_after_first(b: Seq<u8>, w: int)
    requires
        valid_utf8(b),
        b.len() >= w,
        w == 1 ==> is_leading_byte_width_1(b[0]),
        w == 2 ==> is_leading_byte_width_2(b[0]),
        w == 3 ==> is_leading_byte_width_3(b[0]),
        1 <= w <= 3,
    ensures
        is_char_boundary(b, w),
{
    reveal_with_fuel(is_char_boundary, 2);
    assert(valid_first_scalar(b));
    assert(length_of_first_scalar(b) == w);
    is_char_boundary_start_end_of_seq(pop_first_scalar(b));
}

/// A position holding a byte below 0x80 is a character boundary.
proof fn lemma_boundary_at_ascii(b: Seq<u8>, i: int)
    requires
        valid_utf8(b),
        0 <= i < b.len(),
        b[i] < 0x80,
    ensures
        is_char_boundary(b, i),
{
    is_char_boundary_iff_not_is_continuation_byte(b, i);
}

/// A position holding a leading byte is a character boundary.
proof fn lemma_boundary_at_leading(b: Seq<u8>, i: int)
    requires
        valid_utf8(b),
        0 <= i < b.len(),
        !is_continuation_byte(b[i]),
    ensures
        is_char_boundary(b, i),
{
    is_char_boundary_iff_not_is_continuation_byte(b, i);
}

proof fn lemma_find_byte(b: Seq<u8>, c: u8, i: int)
    requires
        0 <= i <= b.len(),
        forall|j: int| 0 <= j < i ==> b[j] != c,
        i == b.len() || b[i] == c,
    ensures
        find_byte(b, c) == i,
    decreases i,
{
    if i > 0 {
        lemma_find_byte(b.drop_first(), c, i - 1);
    }
}

/// Index of the first `c` in `b`, or `b.len()`.
fn find(b: &[u8], c: u8) -> (i: usize)
    ensures
        i == find_byte(b@, c),
        i <= b@.len(),
        i < b@.len() ==> b@[i as int] == c,
{
    let mut i: usize = 0;
    while i < b.len() && b[i] != c
        invariant
            i <= b@.len(),
            forall|j: int| 0 <= j < i ==> b@[j] != c,
        decreases b@.len() - i,
    {
        i += 1;
    }
    proof {
        lemma_find_byte(b@, c, i as int);
    }
    i
}

/// The first line of a non-empty `s` and what follows its line ending.
fn next_line<'a>(s: &'a str) -> (r: (&'a str, &'a str))
    requires
        s.spec_bytes().len() > 0,
    ensures
        lines_of(s.spec_bytes()) == seq![r.0.spec_bytes()] + lines_of(r.1.spec_bytes()),
        r.1.spec_bytes().len() < s.spec_bytes().len(),
{
    let b = s.as_bytes();
    let ghost sb = s.spec_bytes();
    let e = find(b, NEWLINE);
    if e == b.len() {
        proof {
            is_char_boundary_start_end_of_seq(sb);
        }
        let (line, rest) = s.split_at(e);
        proof {
            assert(line.spec_bytes() =~= sb);
            assert(rest.spec_bytes().len() == 0);
            assert(lines_of(rest.spec_bytes()) =~= Seq::<Seq<u8>>::empty());
            assert(lines_of(sb) =~= seq![sb]);
        }
        (line, rest)
    } else {
        proof {
            lemma_boundary_at_ascii(sb, e as int);
        }
        let (head, tail) = s.split_at(e);
        let ghost tb = tail.spec_bytes();
        proof {
            valid_utf8_split(sb, e as int);
            assert(tb[0] == NEWLINE);
            lemma_boundary_after_first(tb, 1);
        }
        let (_, rest) = tail.split_at(1);
        proof {
            assert(rest.spec_bytes() =~= sb.skip(e + 1));
            assert(head.spec_bytes() =~= sb.take(e as int));
        }
        if e > 0 && b[e - 1] == CARRIAGE_RETURN {
            let hb = head.as_bytes();
            proof {
                assert(hb@ == sb.take(e as int));
                valid_utf8_split(sb, e as int);
                lemma_boundary_at_ascii(hb@, e - 1);
            }
            let (line, _) = head.split_at(e - 1);
            proof {
                assert(line.spec_bytes() =~= strip_cr(sb.take(e as int)));
            }
            (line, rest)
        } else {
            proof {
                assert(head.spec_bytes() =~= strip_cr(sb.take(e as int)));
            }
            (head, rest)
        }
    }
}

/// The first field of `s` and, when a `,` ends it, what follows the `,`.
fn next_field<'a>(s: &'a str) -> (r: (&'a str, Option<&'a str>))
    ensures
        fields_of(s.spec_bytes()) == (match r.1 {
            Some(rest) => seq![r.0.spec_bytes()] + fields_of(rest.spec_bytes()),
            None => seq![r.0.spec_bytes()],
        }),
{
    let b = s.as_bytes();
    let ghost sb = s.spec_bytes();
    let e = find(b, COMMA);
    if e == b.len() {
        proof {
            assert(fields_of(sb) =~= seq![sb]);
        }
        (s, None)
    } else {
        proof {
            lemma_boundary_at_ascii(sb, e as int);
        }
        let (head, tail) = s.split_at(e);
        let ghost tb = tail.spec_bytes();
        proof {
            valid_utf8_split(sb, e as int);
            assert(tb[0] == COMMA);
            lemma_boundary_after_first(tb, 1);
        }
        let (_, rest) = tail.split_at(1);
        proof {
            assert(rest.spec_bytes() =~= sb.skip(e + 1));
            assert(head.spec_bytes() =~= sb.take(e as int));
        }
        (head, Some(rest))
    }
}

proof fn lemma_digits_value_grows(d: Seq<u8>, i: int)
    requires
        all_digits(d),
        0 <= i <= d.len(),
    ensures
        digits_value(d.take(i)) <= digits_value(d),
    decreases d.len() - i,
{
    if i < d.len() {
        lemma_digits_value_grows(d, i + 1);
        assert(d.take(i + 1).drop_last() =~= d.take(i));
        assert(is_digit(d[i]));
    } else {
        assert(d.take(i) =~= d);
    }
}

/// `u32::from_str` on the bytes of `s`.
fn parse_u32(s: &str) -> (r: Option<u32>)
    ensures
        r == parse_u32_spec(s.spec_bytes()),
{
    let b = s.as_bytes();
    let ghost f = b@;
    let start: usize = if b.len() > 0 && b[0] == PLUS {
        1
    } else {
        0
    };
    let ghost d = f.skip(start as int);
    assert(d =~= (if f.len() > 0 && f[0] == PLUS {
        f.drop_first()
    } else {
        f
    }));
    if start == b.len() {
        return None;
    }
    let mut acc: u64 = 0;
    let mut i: usize = start;
    while i < b.len()
        invariant
            f == b@,
            f == s.spec_bytes(),
            d =~= (if f.len() > 0 && f[0] == PLUS {
                f.drop_first()
            } else {
                f
            }),
            start < b@.len(),
            start <= i <= b@.len(),
            d == f.skip(start as int),
            acc == digits_value(d.take(i - start)),
            acc <= u32::MAX,
            forall|j: int| 0 <= j < i - start ==> is_digit(#[trigger] d[j]),
        decreases b@.len() - i,
    {
        let c = b[i];
        if c < 48 || c > 57 {
            assert(!is_digit(d[i - start]));
            return None;
        }
        proof {
            assert(d.take(i - start + 1).drop_last() =~= d.take(i - start));
        }
        acc = acc * 10 + (c - 48) as u64;
        i += 1;
        if acc > u32::MAX as u64 {
            proof {
                if all_digits(d) {
                    lemma_digits_value_grows(d, i - start);
                }
            }
            return None;
        }
    }
    assert(d.take(i - start) =~= d);
    Some(acc as u32)
}

/// The number of bytes of the white-space character `b` starts with, or 0.
fn white_space_prefix_len(b: &[u8]) -> (l: usize)
    ensures
        l == white_space_prefix(b@),
{
    let n = b.len();
    if n >= 1 && ((9 <= b[0] && b[0] <= 13) || b[0] == 32) {
        1
    } else if n >= 2 && b[0] == 0xC2 && (b[1] == 0x85 || b[1] == 0xA0) {
        2
    } else if n >= 3 && ((b[0] == 0xE1 && b[1] == 0x9A && b[2] == 0x80) || (b[0] == 0xE2 && b[1]
        == 0x80 && ((0x80 <= b[2] && b[2] <= 0x8A) || b[2] == 0xA8 || b[2] == 0xA9 || b[2]
        == 0xAF)) || (b[0] == 0xE2 && b[1] == 0x81 && b[2] == 0x9F) || (b[0] == 0xE3 && b[1]
        == 0x80 && b[2] == 0x80)) {
        3
    } else {
        0
    }
}

/// The number of bytes of the white-space character `b` ends with, or 0.
fn white_space_suffix_len(b: &[u8]) -> (l: usize)
    ensures
        l == white_space_suffix(b@),
{
    let n = b.len();
    if n >= 1 && ((9 <= b[n - 1] && b[n - 1] <= 13) || b[n - 1] == 32) {
        1
    } else if n >= 2 && b[n - 2] == 0xC2 && (b[n - 1] == 0x85 || b[n - 1] == 0xA0) {
        2
    } else if n >= 3 && ((b[n - 3] == 0xE1 && b[n - 2] == 0x9A && b[n - 1] == 0x80) || (b[n - 3]
        == 0xE2 && b[n - 2] == 0x80 && ((0x80 <= b[n - 1] && b[n - 1] <= 0x8A) || b[n - 1] == 0xA8
        || b[n - 1] == 0xA9 || b[n - 1] == 0xAF)) || (b[n - 3] == 0xE2 && b[n - 2] == 0x81 && b[n
        - 1] == 0x9F) || (b[n - 3] == 0xE3 && b[n - 2] == 0x80 && b[n - 1] == 0x80)) {
        3
    } else {
        0
    }
}

/// `s` without white space at its two ends (`str::trim`).
pub fn trim<'a>(s: &'a str) -> (r: &'a str)
    ensures
        r.spec_bytes() == trim_bytes(s.spec_bytes()),
{
    let mut cur: &'a str = s;
    let mut l = white_space_prefix_len(cur.as_bytes());
    while l > 0
        invariant
            trim_start_bytes(s.spec_bytes()) == trim_start_bytes(cur.spec_bytes()),
            l == white_space_prefix(cur.spec_bytes()),
        decreases cur.spec_bytes().len(),
    {
        let ghost cb = cur.spec_bytes();
        proof {
            lemma_boundary_after_first(cb, l as int);
        }
        let (_, rest) = cur.split_at(l);
        proof {
            assert(rest.spec_bytes() =~= cb.skip(l as int));
        }
        cur = rest;
        l = white_space_prefix_len(cur.as_bytes());
    }
    let ghost start = cur.spec_bytes();
    assert(trim_start_bytes(s.spec_bytes()) == start);
    let mut l = white_space_suffix_len(cur.as_bytes());
    while l > 0
        invariant
            trim_end_bytes(start) == trim_end_bytes(cur.spec_bytes()),
            l == white_space_suffix(cur.spec_bytes()),
        decreases cur.spec_bytes().len(),
    {
        let ghost cb = cur.spec_bytes();
        let n = cur.as_bytes().len();
        proof {
            let k = (n - l) as int;
            assert(cb.len() == n);
            if l == 1 {
                assert(is_ascii_white_space(cb[k]));
            } else if l == 2 {
                assert(cb[k] == 0xC2);
            } else {
                assert(cb[k] == 0xE1 || cb[k] == 0xE2 || cb[k] == 0xE3);
            }
            lemma_boundary_at_leading(cb, k);
        }
        let (head, _) = cur.split_at(n - l);
        proof {
            assert(head.spec_bytes() =~= cb.take(n - l));
        }
        cur = head;
        l = white_space_suffix_len(cur.as_bytes());
    }
    cur
}

/// One purchase of the sales `csv`.
#[derive(Debug, PartialEq, Eq, PartialOrd, Ord)]
pub struct Record<'r> {
    /// `DATA_COMPRA`
    pub timestamp: u32,
    /// `COD_CLIENTE`
    pub user_id: &'r str,
    /// `COD_PRODUTO`
    pub item_id: u32,
    /// `NOME_PRODUTO`
    pub name: &'r str,
}

impl<'r> Record<'r> {
    /// What the record holds, with its texts as UTF-8 bytes.
    pub open spec fn spec_fields(&self) -> (u32, Seq<u8>, u32, Seq<u8>) {
        (self.timestamp, self.user_id.spec_bytes(), self.item_id, self.name.spec_bytes())
    }

    /// Parses the records of `csv`: every line after the header that has a
    /// timestamp, a client code, a product code and a product name, in the
    /// order of the lines.
    pub fn parse(csv: &'r str) -> (records: Vec<Self>)
        ensures
            records@.map_values(|r: Record<'r>| r.spec_fields()) == parse_spec(csv.spec_bytes()),
            lines_of(csv.spec_bytes()).len() == 0 ==> records@.len() == 0,
            lines_of(csv.spec_bytes()).len() > 0 ==> records@.map_values(|r: Record<'r>| r.spec_fields())
                == lines_of(csv.spec_bytes()).drop_first().filter(|l: Seq<u8>| parses(l)).map_values(
                |l: Seq<u8>| reading(l),
            ),
    {
        proof {
            law_parse_reads_data_lines(csv.spec_bytes());
        }
        let mut out: Vec<Record<'r>> = Vec::new();
        if csv.as_bytes().len() == 0 {
            proof {
                assert(lines_of(csv.spec_bytes()) =~= Seq::<Seq<u8>>::empty());
                assert(out@.map_values(|r: Record<'r>| r.spec_fields()) =~= Seq::empty());
            }
            return out;
        }
        let (_, first_rest) = next_line(csv);
        let mut rest: &'r str = first_rest;
        proof {
            assert(lines_of(csv.spec_bytes()).drop_first() =~= lines_of(rest.spec_bytes()));
            assert(out@.map_values(|r: Record<'r>| r.spec_fields()) + records_of_lines(
                lines_of(rest.spec_bytes()),
            ) =~= records_of_lines(lines_of(rest.spec_bytes())));
        }
        while rest.as_bytes().len() > 0
            invariant
                lines_of(csv.spec_bytes()).len() > 0,
                parse_spec(csv.spec_bytes()) == out@.map_values(|r: Record<'r>| r.spec_fields())
                    + records_of_lines(lines_of(rest.spec_bytes())),
            decreases rest.spec_bytes().len(),
        {
            let (line, next) = next_line(rest);
            let ghost ls = lines_of(rest.spec_bytes());
            let ghost before = out@.map_values(|r: Record<'r>| r.spec_fields());
            proof {
                assert(ls[0] == line.spec_bytes());
                assert(ls.drop_first() =~= lines_of(next.spec_bytes()));
            }
            match Self::parse_line(line) {
                Some(r) => {
                    out.push(r);
                    proof {
                        assert(out@.map_values(|r: Record<'r>| r.spec_fields()) =~= before.push(
                            r.spec_fields(),
                        ));
                        assert(before.push(r.spec_fields()) + records_of_lines(
                            lines_of(next.spec_bytes()),
                        ) =~= before + (seq![r.spec_fields()] + records_of_lines(
                            lines_of(next.spec_bytes()),
                        )));
                    }
                },
                None => {
                    proof {
                        assert(records_of_lines(ls) =~= records_of_lines(
                            lines_of(next.spec_bytes()),
                        ));
                    }
                },
            }
            rest = next;
        }
        proof {
            assert(lines_of(rest.spec_bytes()) =~= Seq::<Seq<u8>>::empty());
            assert(out@.map_values(|r: Record<'r>| r.spec_fields()) + Seq::empty() =~= out@.map_values(
                |r: Record<'r>| r.spec_fields(),
            ));
        }
        out
    }

    /// Parses one line: `timestamp,client,product,name[,...]`.
    fn parse_line(line: &'r str) -> (r: Option<Self>)
        ensures
            match r {
                Some(rec) => parse_line_spec(line.spec_bytes()) == Some(rec.spec_fields()),
                None => parse_line_spec(line.spec_bytes()) is None,
            },
    {
        let ghost fs = fields_of(line.spec_bytes());
        let (f0, r1) = next_field(line);
        let timestamp = match parse_u32(f0) {
            Some(t) => t,
            None => return None,
        };
        let r1 = match r1 {
            Some(x) => x,
            None => return None,
        };
        let (f1, r2) = next_field(r1);
        let r2 = match r2 {
            Some(x) => x,
            None => return None,
        };
        let (f2, r3) = next_field(r2);
        let item_id = match parse_u32(f2) {
            Some(t) => t,
            None => return None,
        };
        let r3 = match r3 {
            Some(x) => x,
            None => return None,
        };
        let (f3, _) = next_field(r3);
        let name = trim(f3);
        proof {
            assert(fs.len() >= 4);
            assert(fs[1] == f1.spec_bytes());
            assert(fs[2] == f2.spec_bytes());
            assert(fs[3] == f3.spec_bytes());
        }
        Some(Record { timestamp, user_id: f1, item_id, name })
    }
}

/// Each line after the header gives at most one record, and exactly one
/// when every such line parses.
pub proof fn law_one_record_per_line(ls: Seq<Seq<u8>>)
    ensures
        records_of_lines(ls).len() <= ls.len(),
        (forall|i: int| 0 <= i < ls.len() ==> (#[trigger] parse_line_spec(ls[i])) is Some)
            ==> records_of_lines(ls).len() == ls.len(),
    decreases ls.len(),
{
    if ls.len() > 0 {
        law_one_record_per_line(ls.drop_first());
        if forall|i: int| 0 <= i < ls.len() ==> (#[trigger] parse_line_spec(ls[i])) is Some {
            assert forall|i: int| 0 <= i < ls.drop_first().len() implies (#[trigger] parse_line_spec(
                ls.drop_first()[i],
            )) is Some by {
                assert(ls.drop_first()[i] == ls[i + 1]);
            }
            assert(parse_line_spec(ls[0]) is Some);
        }
    }
}

/// `parts[0] + seps[0] + parts[1] + seps[1] + ...`.
pub open spec fn joined(parts: Seq<Seq<u8>>, seps: Seq<Seq<u8>>) -> Seq<u8>
    decreases parts.len(),
{
    if parts.len() == 0 {
        seq![]
    } else {
        parts[0] + seps[0] + joined(parts.drop_first(), seps.drop_first())
    }
}

proof fn lemma_find_byte_props(b: Seq<u8>, c: u8)
    ensures
        0 <= find_byte(b, c) <= b.len(),
        forall|k: int| 0 <= k < find_byte(b, c) ==> b[k] != c,
        find_byte(b, c) < b.len() ==> b[find_byte(b, c)] == c,
    decreases b.len(),
{
    if b.len() > 0 && b[0] != c {
        lemma_find_byte_props(b.drop_first(), c);
        assert forall|k: int| 0 <= k < find_byte(b, c) implies b[k] != c by {
            if k > 0 {
                assert(b[k] == b.drop_first()[k - 1]);
            }
        }
    }
}

proof fn lemma_joined_cons(x: Seq<u8>, y: Seq<u8>, ps: Seq<Seq<u8>>, ss: Seq<Seq<u8>>)
    ensures
        joined(seq![x] + ps, seq![y] + ss) == x + y + joined(ps, ss),
{
    assert((seq![x] + ps).drop_first() =~= ps);
    assert((seq![y] + ss).drop_first() =~= ss);
}

/// The lines are exactly the text between line endings: with its ending put
/// back after each line (`\n`, or `\r\n`; none for a last line that has no
/// `\n`, which is then not empty), they give back the text; no line holds a
/// `\n`, and a line whose ending is a bare `\n` does not end with `\r`. So
/// there is one line per `\n`, plus one for a non-empty unterminated end, and
/// equal neighbouring lines are kept.
pub proof fn law_lines_rejoin(b: Seq<u8>) -> (ends: Seq<Seq<u8>>)
    ensures
        ends.len() == lines_of(b).len(),
        joined(lines_of(b), ends) == b,
        forall|i: int| 0 <= i < lines_of(b).len() ==> !(#[trigger] lines_of(b)[i]).contains(NEWLINE),
        forall|i: int|
            0 <= i < lines_of(b).len() ==> {
                ||| (#[trigger] ends[i] == seq![NEWLINE] && !(lines_of(b)[i].len() > 0 && lines_of(
                    b,
                )[i].last() == CARRIAGE_RETURN))
                ||| ends[i] == seq![CARRIAGE_RETURN, NEWLINE]
                ||| (i == lines_of(b).len() - 1 && ends[i].len() == 0 && lines_of(b)[i].len() > 0)
            },
    decreases b.len(),
{
    if b.len() == 0 {
        let ends: Seq<Seq<u8>> = seq![];
        assert(lines_of(b) =~= Seq::<Seq<u8>>::empty());
        ends
    } else {
        let e = find_byte(b, NEWLINE);
        lemma_find_byte_props(b, NEWLINE);
        if e >= b.len() {
            let ends: Seq<Seq<u8>> = seq![seq![]];
            assert(lines_of(b) == seq![b]);
            lemma_joined_cons(b, seq![], seq![], seq![]);
            assert(b + Seq::<u8>::empty() + Seq::<u8>::empty() =~= b);
            assert(!b.contains(NEWLINE));
            ends
        } else {
            let r = b.skip(e + 1);
            let ends_r = law_lines_rejoin(r);
            let head = b.take(e);
            let line = strip_cr(head);
            let end: Seq<u8> = if head.len() > 0 && head.last() == CARRIAGE_RETURN {
                seq![CARRIAGE_RETURN, NEWLINE]
            } else {
                seq![NEWLINE]
            };
            let ends = seq![end] + ends_r;
            let ls = lines_of(b);
            assert(ls == seq![line] + lines_of(r));
            lemma_joined_cons(line, end, lines_of(r), ends_r);
            assert(line + end =~= b.take(e + 1));
            assert(b.take(e + 1) + r =~= b);
            assert(!line.contains(NEWLINE)) by {
                if line.contains(NEWLINE) {
                    let k = choose|k: int| 0 <= k < line.len() && line[k] == NEWLINE;
                    assert(b[k] == NEWLINE);
                }
            }
            assert forall|i: int| 0 <= i < ls.len() implies !(#[trigger] ls[i]).contains(NEWLINE) by {
                if i > 0 {
                    assert(ls[i] == lines_of(r)[i - 1]);
                }
            }
            assert forall|i: int|
                0 <= i < ls.len() implies {
                ||| (#[trigger] ends[i] == seq![NEWLINE] && !(ls[i].len() > 0 && ls[i].last()
                    == CARRIAGE_RETURN))
                ||| ends[i] == seq![CARRIAGE_RETURN, NEWLINE]
                ||| (i == ls.len() - 1 && ends[i].len() == 0 && ls[i].len() > 0)
            } by {
                if i > 0 {
                    assert(ls[i] == lines_of(r)[i - 1]);
                    assert(ends[i] == ends_r[i - 1]);
                } else {
                    if head.len() > 0 && head.last() == CARRIAGE_RETURN {
                    } else {
                        assert(line == head);
                    }
                }
            }
            ends
        }
    }
}

/// The fields are exactly the text between the `,` separators: joined with a
/// `,` after each field but the last, they give back the line, and no field
/// holds a `,`.
pub proof fn law_fields_rejoin(b: Seq<u8>) -> (seps: Seq<Seq<u8>>)
    ensures
        fields_of(b).len() >= 1,
        seps.len() == fields_of(b).len(),
        joined(fields_of(b), seps) == b,
        forall|i: int| 0 <= i < fields_of(b).len() ==> !(#[trigger] fields_of(b)[i]).contains(COMMA),
        forall|i: int| 0 <= i < fields_of(b).len() - 1 ==> #[trigger] seps[i] == seq![COMMA],
        seps[fields_of(b).len() - 1].len() == 0,
    decreases b.len(),
{
    let e = find_byte(b, COMMA);
    lemma_find_byte_props(b, COMMA);
    if e >= b.len() {
        let seps: Seq<Seq<u8>> = seq![seq![]];
        assert(fields_of(b) == seq![b]);
        lemma_joined_cons(b, seq![], seq![], seq![]);
        assert(b + Seq::<u8>::empty() + Seq::<u8>::empty() =~= b);
        assert(!b.contains(COMMA));
        seps
    } else {
        let r = b.skip(e + 1);
        let seps_r = law_fields_rejoin(r);
        let head = b.take(e);
        let seps = seq![seq![COMMA]] + seps_r;
        let fs = fields_of(b);
        assert(fs == seq![head] + fields_of(r));
        lemma_joined_cons(head, seq![COMMA], fields_of(r), seps_r);
        assert(head + seq![COMMA] + r =~= b);
        assert(!head.contains(COMMA)) by {
            if head.contains(COMMA) {
                let k = choose|k: int| 0 <= k < head.len() && head[k] == COMMA;
                assert(b[k] == COMMA);
            }
        }
        assert forall|i: int| 0 <= i < fs.len() implies !(#[trigger] fs[i]).contains(COMMA) by {
            if i > 0 {
                assert(fs[i] == fields_of(r)[i - 1]);
            }
        }
        assert forall|i: int| 0 <= i < fs.len() - 1 implies #[trigger] seps[i] == seq![COMMA] by {
            if i > 0 {
                assert(seps[i] == seps_r[i - 1]);
            }
        }
        assert(seps[fs.len() - 1] == seps_r[fields_of(r).len() - 1]);
        seps
    }
}

/// The decimal digits of `n`, most significant first, without leading zeros.
pub open spec fn decimal(n: nat) -> Seq<u8>
    decreases n,
{
    if n < 10 {
        seq![(n + 48) as u8]
    } else {
        decimal(n / 10).push((n % 10 + 48) as u8)
    }
}

/// `k` zero digits.
pub open spec fn zeros(k: nat) -> Seq<u8> {
    Seq::new(k, |i: int| 48u8)
}

/// An optional `+` sign.
pub open spec fn sign(plus: bool) -> Seq<u8> {
    if plus {
        seq![PLUS]
    } else {
        seq![]
    }
}

proof fn lemma_decimal(n: nat)
    ensures
        decimal(n).len() > 0,
        all_digits(decimal(n)),
        digits_value(decimal(n)) == n,
    decreases n,
{
    if n < 10 {
        assert(decimal(n).drop_last() =~= Seq::<u8>::empty());
        assert(((n + 48) as u8) as int == n + 48);
        assert(decimal(n).last() == n + 48);
        assert(digits_value(decimal(n).drop_last()) == 0);
    } else {
        lemma_decimal(n / 10);
        let d = decimal(n);
        assert(d.drop_last() =~= decimal(n / 10));
        assert(d.last() == n % 10 + 48);
        assert((n / 10) * 10 + n % 10 == n) by {
            vstd::arithmetic::div_mod::lemma_fundamental_div_mod(n as int, 10);
        }
        assert forall|i: int| 0 <= i < d.len() implies is_digit(#[trigger] d[i]) by {
            if i < d.len() - 1 {
                assert(d[i] == decimal(n / 10)[i]);
            }
        }
    }
}

proof fn lemma_digits_value_zeros(k: nat)
    ensures
        digits_value(zeros(k)) == 0,
        all_digits(zeros(k)),
    decreases k,
{
    if k > 0 {
        lemma_digits_value_zeros((k - 1) as nat);
        assert(zeros(k).drop_last() =~= zeros((k - 1) as nat));
    }
}

proof fn lemma_digits_value_leading_zeros(k: nat, x: Seq<u8>)
    ensures
        digits_value(zeros(k) + x) == digits_value(x),
    decreases x.len(),
{
    if x.len() == 0 {
        assert(zeros(k) + x =~= zeros(k));
        lemma_digits_value_zeros(k);
    } else {
        lemma_digits_value_leading_zeros(k, x.drop_last());
        assert((zeros(k) + x).drop_last() =~= zeros(k) + x.drop_last());
        assert((zeros(k) + x).last() == x.last());
    }
}

/// Decimal text reads as its number: for every `n`, an optional `+`, any
/// number of leading zeros and the digits of `n` read as `n` when it fits in
/// a `u32`, and as nothing when it does not.
pub proof fn law_u32_reads_decimal(n: nat, k: nat, plus: bool)
    ensures
        parse_u32_spec(sign(plus) + zeros(k) + decimal(n)) == (if n <= u32::MAX {
            Some(n as u32)
        } else {
            None
        }),
{
    let f = sign(plus) + zeros(k) + decimal(n);
    let d = zeros(k) + decimal(n);
    lemma_decimal(n);
    lemma_digits_value_zeros(k);
    lemma_digits_value_leading_zeros(k, decimal(n));
    assert(all_digits(d)) by {
        assert forall|i: int| 0 <= i < d.len() implies is_digit(#[trigger] d[i]) by {
            if i < k {
                assert(d[i] == zeros(k)[i]);
            } else {
                assert(d[i] == decimal(n)[i - k]);
            }
        }
    }
    if plus {
        assert(f.drop_first() =~= d);
    } else {
        assert(f =~= d);
        assert(is_digit(d[0]));
    }
}

/// The digits `d`, with a value `v`, are `v` in decimal after some zeros.
proof fn lemma_digits_are_decimal(d: Seq<u8>) -> (k: nat)
    requires
        d.len() > 0,
        all_digits(d),
    ensures
        d == zeros(k) + decimal(digits_value(d)),
    decreases d.len(),
{
    let p = d.drop_last();
    let c = d.last();
    assert(is_digit(d[d.len() - 1]));
    let v = digits_value(d);
    if p.len() == 0 {
        assert(p =~= Seq::<u8>::empty());
        assert(digits_value(p) == 0);
        assert(c >= 48);
        assert(v == digits_value(p) * 10 + (c - 48) as nat);
        assert(v == c - 48);
        assert(d =~= zeros(0) + decimal(v));
        0
    } else {
        assert(all_digits(p)) by {
            assert forall|i: int| 0 <= i < p.len() implies is_digit(#[trigger] p[i]) by {
                assert(p[i] == d[i]);
            }
        }
        let kp = lemma_digits_are_decimal(p);
        let vp = digits_value(p);
        assert(v == vp * 10 + (c - 48));
        if vp == 0 {
            assert(decimal(0) == seq![48u8]);
            assert(p =~= zeros(kp + 1));
            assert(v < 10);
            assert(d =~= zeros(kp + 1) + decimal(v));
            kp + 1
        } else {
            assert(v >= 10);
            assert(v / 10 == vp && v % 10 == c - 48) by {
                vstd::arithmetic::div_mod::lemma_fundamental_div_mod_converse(
                    v as int,
                    10,
                    vp as int,
                    (c - 48) as int,
                );
            }
            assert(decimal(v) == decimal(vp).push(c));
            assert(d == p.push(c));
            assert(d =~= (zeros(kp) + decimal(vp)).push(c));
            assert((zeros(kp) + decimal(vp)).push(c) =~= zeros(kp) + decimal(vp).push(c));
            kp
        }
    }
}

/// Only decimal text reads as a number: whatever reads as `v` is an optional
/// `+`, some leading zeros and the digits of `v`.
pub proof fn law_u32_reads_only_decimal(f: Seq<u8>) -> (r: (bool, nat))
    requires
        parse_u32_spec(f) is Some,
    ensures
        f == sign(r.0) + zeros(r.1) + decimal((parse_u32_spec(f)->0) as nat),
{
    let plus = f.len() > 0 && f[0] == PLUS;
    let d = if plus {
        f.drop_first()
    } else {
        f
    };
    let k = lemma_digits_are_decimal(d);
    if plus {
        assert(f =~= sign(true) + d);
    } else {
        assert(f =~= sign(false) + d);
    }
    (plus, k)
}

/// The reading of a line that parses.
pub open spec fn reading(l: Seq<u8>) -> (u32, Seq<u8>, u32, Seq<u8>) {
    parse_line_spec(l)->0
}

/// The line parses.
pub open spec fn parses(l: Seq<u8>) -> bool {
    parse_line_spec(l) is Some
}

proof fn lemma_records_of_lines_filter(ls: Seq<Seq<u8>>)
    ensures
        records_of_lines(ls) == ls.filter(|l: Seq<u8>| parses(l)).map_values(|l: Seq<u8>| reading(l)),
    decreases ls.len(),
{
    let p = |l: Seq<u8>| parses(l);
    let f = |l: Seq<u8>| reading(l);
    if ls.len() == 0 {
        reveal_with_fuel(Seq::filter, 1);
        assert(ls.filter(p) =~= Seq::<Seq<u8>>::empty());
        assert(ls.filter(p).map_values(f) =~= Seq::empty());
    } else {
        let head = seq![ls[0]];
        let tail = ls.drop_first();
        lemma_records_of_lines_filter(tail);
        assert(ls =~= head + tail);
        Seq::filter_distributes_over_add(head, tail, p);
        reveal_with_fuel(Seq::filter, 2);
        assert(head.drop_last() =~= Seq::<Seq<u8>>::empty());
        if parses(ls[0]) {
            assert(head.filter(p) =~= head);
        } else {
            assert(head.filter(p) =~= Seq::<Seq<u8>>::empty());
        }
        assert((head.filter(p) + tail.filter(p)).map_values(f) =~= head.filter(p).map_values(f)
            + tail.filter(p).map_values(f));
        let r = records_of_lines(ls);
        if parses(ls[0]) {
            assert(head.filter(p).map_values(f) =~= seq![reading(ls[0])]);
        } else {
            assert(head.filter(p).map_values(f) =~= Seq::<(u32, Seq<u8>, u32, Seq<u8>)>::empty());
        }
    }
}

proof fn lemma_records_of_lines_all(ls: Seq<Seq<u8>>)
    requires
        forall|i: int| 0 <= i < ls.len() ==> parses(#[trigger] ls[i]),
    ensures
        records_of_lines(ls).len() == ls.len(),
        forall|i: int| 0 <= i < ls.len() ==> #[trigger] records_of_lines(ls)[i] == reading(ls[i]),
    decreases ls.len(),
{
    if ls.len() > 0 {
        let tail = ls.drop_first();
        assert forall|i: int| 0 <= i < tail.len() implies parses(#[trigger] tail[i]) by {
            assert(tail[i] == ls[i + 1]);
        }
        lemma_records_of_lines_all(tail);
        assert(parses(ls[0]));
        let r = records_of_lines(ls);
        assert(r =~= seq![reading(ls[0])] + records_of_lines(tail));
        assert forall|i: int| 0 <= i < ls.len() implies #[trigger] records_of_lines(ls)[i] == reading(ls[i]) by {
            if i > 0 {
                assert(tail[i - 1] == ls[i]);
            }
        }
    }
}

/// What `Record::parse` gives: the readings of the data lines (every line
/// but the first) that parse, in order, one per such line, equal lines
/// included. When every data line parses, record `i` is the reading of data
/// line `i` and there are as many records as data lines.
pub proof fn law_parse_reads_data_lines(csv: Seq<u8>)
    ensures
        lines_of(csv).len() == 0 ==> parse_spec(csv).len() == 0,
        lines_of(csv).len() > 0 ==> parse_spec(csv) == lines_of(csv).drop_first().filter(
            |l: Seq<u8>| parses(l),
        ).map_values(|l: Seq<u8>| reading(l)),
        lines_of(csv).len() > 0 && (forall|i: int|
            1 <= i < lines_of(csv).len() ==> parses(#[trigger] lines_of(csv)[i])) ==> {
            &&& parse_spec(csv).len() == lines_of(csv).len() - 1
            &&& forall|i: int|
                0 <= i < parse_spec(csv).len() ==> #[trigger] parse_spec(csv)[i] == reading(
                    lines_of(csv)[i + 1],
                )
        },
{
    let ls = lines_of(csv);
    if ls.len() > 0 {
        let data = ls.drop_first();
        lemma_records_of_lines_filter(data);
        if forall|i: int| 1 <= i < ls.len() ==> parses(#[trigger] ls[i]) {
            assert forall|i: int| 0 <= i < data.len() implies parses(#[trigger] data[i]) by {
                assert(data[i] == ls[i + 1]);
            }
            lemma_records_of_lines_all(data);
            assert forall|i: int| 0 <= i < parse_spec(csv).len() implies #[trigger] parse_spec(csv)[i]
                == reading(ls[i + 1]) by {
                assert(data[i] == ls[i + 1]);
            }
        }
    }
}

proof fn lemma_fields_after(x: Seq<u8>, rest: Seq<u8>)
    requires
        !x.contains(COMMA),
    ensures
        fields_of(x + seq![COMMA] + rest) == seq![x] + fields_of(rest),
{
    let b = x + seq![COMMA] + rest;
    assert forall|j: int| 0 <= j < x.len() implies b[j] != COMMA by {
        assert(b[j] == x[j]);
        if x[j] == COMMA {
            assert(x.contains(COMMA));
        }
    }
    lemma_find_byte(b, COMMA, x.len() as int);
    assert(b.take(x.len() as int) =~= x);
    assert(b.skip(x.len() as int + 1) =~= rest);
}

proof fn lemma_decimal_no_comma(n: nat)
    ensures
        !decimal(n).contains(COMMA),
{
    lemma_decimal(n);
    if decimal(n).contains(COMMA) {
        let i = choose|i: int| 0 <= i < decimal(n).len() && decimal(n)[i] == COMMA;
        assert(is_digit(decimal(n)[i]));
    }
}

/// A line of the form `timestamp,client,product,name` (possibly followed by
/// more fields), with the two numbers in decimal and no `,` in the client or
/// the name, reads as exactly those values, the name trimmed.
pub proof fn law_parse_line_reads_fields(t: u32, user: Seq<u8>, item: u32, name: Seq<u8>, more: Seq<u8>)
    requires
        !user.contains(COMMA),
        !name.contains(COMMA),
        more.len() == 0 || more[0] == COMMA,
    ensures
        parse_line_spec(
            decimal(t as nat) + seq![COMMA] + user + seq![COMMA] + decimal(item as nat) + seq![COMMA]
                + name + more,
        ) == Some((t, user, item, trim_bytes(name))),
{
    let dt = decimal(t as nat);
    let di = decimal(item as nat);
    let tail3 = name + more;
    let tail2 = di + seq![COMMA] + tail3;
    let tail1 = user + seq![COMMA] + tail2;
    let line = dt + seq![COMMA] + user + seq![COMMA] + di + seq![COMMA] + name + more;
    assert(line =~= dt + seq![COMMA] + tail1);
    lemma_decimal_no_comma(t as nat);
    lemma_decimal_no_comma(item as nat);
    lemma_fields_after(dt, tail1);
    lemma_fields_after(user, tail2);
    lemma_fields_after(di, tail3);
    if more.len() == 0 {
        assert(tail3 =~= name);
        assert forall|j: int| 0 <= j < name.len() implies name[j] != COMMA by {
            if name[j] == COMMA {
                assert(name.contains(COMMA));
            }
        }
        lemma_find_byte(name, COMMA, name.len() as int);
        assert(fields_of(tail3) == seq![name]);
    } else {
        assert(tail3 =~= name + seq![COMMA] + more.drop_first());
        lemma_fields_after(name, more.drop_first());
    }
    let fs = fields_of(line);
    assert(fs =~= seq![dt] + (seq![user] + (seq![di] + fields_of(tail3))));
    assert(fs[0] == dt && fs[1] == user && fs[2] == di && fs[3] == name);
    law_u32_reads_decimal(t as nat, 0, false);
    law_u32_reads_decimal(item as nat, 0, false);
    assert(sign(false) + zeros(0) + dt =~= dt);
    assert(sign(false) + zeros(0) + di =~= di);
}

/// `s` is a run of white-space characters, read from the front.
pub open spec fn white_space_run(s: Seq<u8>) -> bool
    decreases s.len(),
{
    s.len() == 0 || (white_space_prefix(s) > 0 && white_space_run(s.skip(white_space_prefix(s))))
}

/// `s` is a run of white-space characters, read from the back.
pub open spec fn white_space_run_back(s: Seq<u8>) -> bool
    decreases s.len(),
{
    s.len() == 0 || (white_space_suffix(s) > 0 && white_space_run_back(
        s.take(s.len() - white_space_suffix(s)),
    ))
}

proof fn lemma_white_space_bounds(b: Seq<u8>)
    ensures
        0 <= white_space_prefix(b) <= b.len(),
        0 <= white_space_suffix(b) <= b.len(),
{
}

proof fn lemma_trim_start(b: Seq<u8>) -> (i: int)
    ensures
        0 <= i <= b.len(),
        trim_start_bytes(b) == b.skip(i),
        white_space_run(b.take(i)),
        white_space_prefix(b.skip(i)) == 0,
    decreases b.len(),
{
    lemma_white_space_bounds(b);
    let l = white_space_prefix(b);
    if l > 0 {
        let j = lemma_trim_start(b.skip(l));
        let i = l + j;
        assert(b.skip(l).skip(j) =~= b.skip(i));
        let t = b.take(i);
        assert(white_space_prefix(t) == l) by {
            assert(t.len() >= l);
            assert forall|q: int| 0 <= q < l implies t[q] == b[q] by {}
        }
        assert(t.skip(l) =~= b.skip(l).take(j));
        i
    } else {
        assert(b.take(0) =~= Seq::<u8>::empty());
        assert(b.skip(0) =~= b);
        0
    }
}

proof fn lemma_trim_end(b: Seq<u8>) -> (j: int)
    ensures
        0 <= j <= b.len(),
        trim_end_bytes(b) == b.take(j),
        white_space_run_back(b.skip(j)),
        white_space_suffix(b.take(j)) == 0,
    decreases b.len(),
{
    lemma_white_space_bounds(b);
    let l = white_space_suffix(b);
    if l > 0 {
        let c = b.take(b.len() - l);
        let j = lemma_trim_end(c);
        assert(c.take(j) =~= b.take(j));
        let t = b.skip(j);
        let n = t.len() as int;
        assert(white_space_suffix(t) == l) by {
            assert(n >= l);
            assert(t[n - 1] == b[b.len() - 1]);
            if l >= 2 {
                assert(t[n - 2] == b[b.len() - 2]);
            }
            if l >= 3 {
                assert(t[n - 3] == b[b.len() - 3]);
            }
        }
        assert(t.take(n - l) =~= c.skip(j));
        j
    } else {
        assert(b.skip(b.len() as int) =~= Seq::<u8>::empty());
        assert(b.take(b.len() as int) =~= b);
        b.len() as int
    }
}

/// Trimming removes white space at the two ends and nothing else: the
/// result is a piece `b[i..j]` of the text, what is cut before it is a run of
/// white-space characters and so is what is cut after it, and the result
/// neither starts nor ends with a white-space character.
pub proof fn law_trim_cuts_white_space(b: Seq<u8>) -> (r: (int, int))
    ensures
        0 <= r.0 <= r.1 <= b.len(),
        trim_bytes(b) == b.subrange(r.0, r.1),
        white_space_run(b.take(r.0)),
        white_space_run_back(b.skip(r.1)),
        white_space_prefix(trim_bytes(b)) == 0 || trim_bytes(b).len() == 0,
        white_space_suffix(trim_bytes(b)) == 0,
{
    let i = lemma_trim_start(b);
    let s = b.skip(i);
    let j = lemma_trim_end(s);
    assert(s.take(j) =~= b.subrange(i, i + j));
    assert(s.skip(j) =~= b.skip(i + j));
    let t = s.take(j);
    if t.len() > 0 {
        assert forall|q: int| 0 <= q < t.len() implies t[q] == s[q] by {}
        assert(white_space_prefix(t) == 0) by {
            lemma_white_space_bounds(s);
            if white_space_prefix(t) > 0 {
                let l = white_space_prefix(t);
                assert(l <= t.len());
                assert forall|q: int| 0 <= q < l implies t[q] == s[q] by {}
            }
        }
    }
    (i, i + j)
}

}
