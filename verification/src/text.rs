//! Small text helpers for the interface: display scrambling, wrapped-text
//! height, and a strict boolean parser.
use vstd::prelude::*;
use vstd::string::StringSliceAdditionalSpecFns;

verus! {

pub(crate) proof fn lemma_char_code(c: char)
    ensures
        (c as u32) as int == c as int,
        0 <= c as int <= 0x10FFFF,
{
}

/// Relies on str::chars: the characters of the string, in order.
#[verifier::external_body]
pub(crate) fn chars_of(s: &str) -> (r: Vec<char>)
    ensures
        r@ == s@,
{
    s.chars().collect()
}

/// Relies on String's FromIterator over char: collecting characters yields
/// the string of exactly those characters.
#[verifier::external_body]
pub(crate) fn string_from_chars(v: &Vec<char>) -> (r: String)
    ensures
        r@ == v@,
{
    v.iter().collect()
}

/// The characters with the Unicode white-space property, the set
/// char::is_whitespace documents.
pub open spec fn is_space(c: char) -> bool {
    c == ' ' || c == '\t' || c == '\n' || c == '\r' || c == '\u{0b}' || c == '\u{0c}' || c
        == '\u{85}' || c == '\u{a0}' || c == '\u{1680}' || ('\u{2000}' <= c && c <= '\u{200a}') || c
        == '\u{2028}' || c == '\u{2029}' || c == '\u{202f}' || c == '\u{205f}' || c == '\u{3000}'
}

pub fn char_is_space(c: char) -> (b: bool)
    ensures
        b == is_space(c),
{
    c == ' ' || c == '\t' || c == '\n' || c == '\r' || c == '\u{0b}' || c == '\u{0c}' || c
        == '\u{85}' || c == '\u{a0}' || c == '\u{1680}' || ('\u{2000}' <= c && c <= '\u{200a}') || c
        == '\u{2028}' || c == '\u{2029}' || c == '\u{202f}' || c == '\u{205f}' || c == '\u{3000}'
}

/// The digit standing in for the character at position `i`: a fixed hash of
/// position and character.
pub open spec fn scramble_digit(i: int, c: char) -> int {
    ((i * 31 + (c as int)) * 17) % 10
}

pub open spec fn digit_char(d: int) -> char {
    if d == 0 {
        '0'
    } else if d == 1 {
        '1'
    } else if d == 2 {
        '2'
    } else if d == 3 {
        '3'
    } else if d == 4 {
        '4'
    } else if d == 5 {
        '5'
    } else if d == 6 {
        '6'
    } else if d == 7 {
        '7'
    } else if d == 8 {
        '8'
    } else {
        '9'
    }
}

/// The scrambled text: white space kept, every other character replaced by
/// its position hash digit; with scrambling off, the text itself.
pub open spec fn scrambled(s: Seq<char>, scramble_mode: bool) -> Seq<char> {
    if !scramble_mode {
        s
    } else {
        Seq::new(
            s.len(),
            |i: int|
                if is_space(s[i]) {
                    s[i]
                } else {
                    digit_char(scramble_digit(i, s[i]))
                },
        )
    }
}

fn digit_to_char(d: u128) -> (c: char)
    requires
        d < 10,
    ensures
        c == digit_char(d as int),
{
    if d == 0 {
        '0'
    } else if d == 1 {
        '1'
    } else if d == 2 {
        '2'
    } else if d == 3 {
        '3'
    } else if d == 4 {
        '4'
    } else if d == 5 {
        '5'
    } else if d == 6 {
        '6'
    } else if d == 7 {
        '7'
    } else if d == 8 {
        '8'
    } else {
        '9'
    }
}

/// Replaces each non-white-space character by a digit derived from its
/// position and value, keeping the text's length and spacing; with
/// scrambling off, returns the text unchanged.
pub fn scramble_text(text: &str, scramble_mode: bool) -> (r: String)
    requires
        text@.len() < 0x1000_0000_0000_0000,
    ensures
        r@ == scrambled(text@, scramble_mode),
{
    if !scramble_mode {
        return text.to_owned();
    }
    let cs = chars_of(text);
    let n = cs.len();
    let mut out: Vec<char> = Vec::new();
    let mut i: usize = 0;
    while i < n
        invariant
            n == cs@.len(),
            cs@ == text@,
            n < 0x1000_0000_0000_0000,
            0 <= i <= n,
            out@.len() == i,
            forall|k: int| 0 <= k < i ==> out@[k] == scrambled(text@, true)[k],
        decreases n - i,
    {
        let c = cs[i];
        if char_is_space(c) {
            out.push(c);
        } else {
            let h: u128 = ((i as u128) * 31 + ((c as u32) as u128)) * 17;
            let d = h % 10;
            proof {
                lemma_char_code(c);
                assert(h == (i * 31 + (c as int)) * 17);
                assert(d == scramble_digit(i as int, c));
            }
            out.push(digit_to_char(d));
        }
        i = i + 1;
    }
    let r = string_from_chars(&out);
    proof {
        assert(r@ =~= scrambled(text@, true));
    }
    r
}

/// Parses a strict boolean ("true" / "false"); anything else, or no value
/// at all, falls back to the default.
pub fn parse_bool(value: Option<&String>, default: bool) -> (r: bool)
    ensures
        r == match value {
            Some(s) => {
                if s@ == "true"@ {
                    true
                } else if s@ == "false"@ {
                    false
                } else {
                    default
                }
            },
            None => default,
        },
{
    match value {
        Some(s) => {
            let t = String::from_str("true");
            let f = String::from_str("false");
            if *s == t {
                true
            } else if *s == f {
                false
            } else {
                default
            }
        },
        None => default,
    }
}

/// Position of the first line feed, -1 if there is none.
pub open spec fn find_newline(b: Seq<u8>) -> int
    decreases b.len(),
{
    if b.len() == 0 {
        -1
    } else if b[0] == 10 {
        0
    } else {
        let r = find_newline(b.drop_first());
        if r == -1 {
            -1
        } else {
            r + 1
        }
    }
}

proof fn lemma_find_newline(b: Seq<u8>)
    ensures
        -1 <= find_newline(b) < b.len(),
        find_newline(b) == -1 <==> forall|i: int| 0 <= i < b.len() ==> b[i] != 10,
        find_newline(b) >= 0 ==> {
            let p = find_newline(b);
            &&& b[p] == 10
            &&& forall|i: int| 0 <= i < p ==> b[i] != 10
        },
    decreases b.len(),
{
    if b.len() > 0 && b[0] != 10 {
        let d = b.drop_first();
        lemma_find_newline(d);
        let r = find_newline(d);
        if r == -1 {
            assert forall|i: int| 0 <= i < b.len() implies b[i] != 10 by {
                if i > 0 {
                    assert(d[i - 1] == b[i]);
                }
            }
        } else {
            assert(b[r + 1] == d[r]);
            assert forall|i: int| 0 <= i < r + 1 implies b[i] != 10 by {
                if i > 0 {
                    assert(d[i - 1] == b[i]);
                }
            }
        }
    }
}

/// Bytes of a line-feed-terminated line once the carriage return of a
/// `\r\n` ending is stripped.
pub open spec fn stripped_len(line: Seq<u8>) -> int {
    if line.len() > 0 && line.last() == 13 {
        line.len() - 1
    } else {
        line.len() as int
    }
}

/// Rows a line occupies at the given width: its length divided by the
/// width, rounded up; an empty line still takes one row.
pub open spec fn line_rows(len: int, width: int) -> int {
    if len == 0 {
        1
    } else {
        len / width + if len % width != 0 {
            1int
        } else {
            0int
        }
    }
}

/// Total rows of a text: the sum of its lines' rows, splitting as
/// str::lines does — lines end at a line feed or a carriage return plus
/// line feed, a trailing line feed opens no further line, and a lone
/// carriage return ending the text belongs to the final line.
pub open spec fn text_rows(b: Seq<u8>, width: int) -> int
    decreases b.len(),
{
    if b.len() == 0 {
        0
    } else {
        let p = find_newline(b);
        if 0 <= p < b.len() {
            line_rows(stripped_len(b.subrange(0, p)), width) + text_rows(
                b.subrange(p + 1, b.len() as int),
                width,
            )
        } else {
            line_rows(b.len() as int, width)
        }
    }
}

proof fn lemma_text_rows_bounds(b: Seq<u8>, width: int)
    requires
        width > 0,
    ensures
        0 <= text_rows(b, width) <= b.len() + 1,
    decreases b.len(),
{
    if b.len() > 0 {
        let p = find_newline(b);
        lemma_find_newline(b);
        if 0 <= p < b.len() {
            lemma_text_rows_bounds(b.subrange(p + 1, b.len() as int), width);
            let l = stripped_len(b.subrange(0, p));
            assert(line_rows(l, width) <= p + 1) by {
                if l > 0 {
                    assert(l / width <= l) by {
                        vstd::arithmetic::div_mod::lemma_div_nonincreasing(l, width);
                    }
                }
            }
        } else {
            let l = b.len() as int;
            assert(line_rows(l, width) <= b.len() + 1) by {
                if l > 0 {
                    assert(l / width <= l) by {
                        vstd::arithmetic::div_mod::lemma_div_nonincreasing(l, width);
                    }
                }
            }
        }
    }
}

/// The rows the text occupies when wrapped at `width` columns, at least 1;
/// a zero width counts as a single row.
pub fn calculate_wrapped_text_height(text: &str, width: usize) -> (r: usize)
    requires
        text.spec_bytes().len() < usize::MAX,
    ensures
        width == 0 ==> r == 1,
        width > 0 ==> r == ({
            let t = text_rows(text.spec_bytes(), width as int);
            if t < 1 {
                1int
            } else {
                t
            }
        }),
{
    if width == 0 {
        return 1;
    }
    let bytes = text.as_bytes();
    let n = bytes.len();
    proof {
        lemma_text_rows_bounds(bytes@, width as int);
        assert(bytes@.subrange(0, n as int) == bytes@);
    }
    let mut total: usize = 0;
    let mut p: usize = 0;
    while p < n
        invariant
            n == bytes@.len(),
            bytes@ == text.spec_bytes(),
            n < usize::MAX,
            width > 0,
            0 <= p <= n,
            total + text_rows(bytes@.subrange(p as int, n as int), width as int) == text_rows(
                bytes@,
                width as int,
            ),
            0 <= text_rows(bytes@.subrange(p as int, n as int), width as int),
        decreases n - p,
    {
        let ghost suffix = bytes@.subrange(p as int, n as int);
        let mut q = p;
        while q < n && bytes[q] != 10
            invariant
                n == bytes@.len(),
                p <= q <= n,
                forall|k: int| p <= k < q ==> bytes@[k] != 10,
            decreases n - q,
        {
            q = q + 1;
        }
        proof {
            lemma_find_newline(suffix);
            assert forall|k: int| 0 <= k < q - p implies suffix[k] != 10 by {
                assert(suffix[k] == bytes@[p + k]);
            }
            if q < n {
                assert(suffix[q - p] == bytes@[q as int]);
                assert(find_newline(suffix) == q - p);
            } else {
                assert(find_newline(suffix) == -1);
            }
        }
        let mut l = q - p;
        if q < n && l > 0 && bytes[q - 1] == 13 {
            l = l - 1;
        }
        proof {
            if q < n {
                let line = suffix.subrange(0, q - p);
                assert forall|k: int| 0 <= k < line.len() implies line[k] == bytes@[p + k] by {
                    assert(line[k] == suffix[k]);
                }
                assert(l as int == stripped_len(line));
            } else {
                assert(l as int == suffix.len());
            }
        }
        let rows = if l == 0 {
            1
        } else {
            l / width + if l % width != 0 {
                1
            } else {
                0
            }
        };
        proof {
            let next: int = if q < n {
                q + 1
            } else {
                n as int
            };
            if q < n {
                assert(bytes@.subrange(next as int, n as int) =~= suffix.subrange(
                    next - p,
                    suffix.len() as int,
                ));
            } else {
                assert(bytes@.subrange(n as int, n as int) =~= Seq::<u8>::empty());
            }
            lemma_text_rows_bounds(bytes@.subrange(next as int, n as int), width as int);
            lemma_text_rows_bounds(bytes@, width as int);
        }
        total = total + rows;
        p = if q < n {
            q + 1
        } else {
            n
        };
    }
    proof {
        assert(bytes@.subrange(n as int, n as int) =~= Seq::<u8>::empty());
    }
    if total == 0 {
        1
    } else {
        total
    }
}

} // verus!
