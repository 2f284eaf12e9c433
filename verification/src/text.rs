//! Text building blocks of the pipeline: decimal rendering of counters,
//! the `"<word>:<count>\n"` entry line format, lowercasing of tokens, and
//! splitting a line into whitespace-separated tokens.

use vstd::prelude::*;

verus! {

/// The decimal digit character for a value below ten.
pub open spec fn spec_digit_char(d: int) -> char {
    if d == 0 {
        '0'
    } else if d == 1 {
        '1'
    } else if d == 2 {
        '2'
    } else if d == 3 {
        '3'
    } else if d == 4 {
        '4'
    } else if d == 5 {
        '5'
    } else if d == 6 {
        '6'
    } else if d == 7 {
        '7'
    } else if d == 8 {
        '8'
    } else {
        '9'
    }
}

/// The decimal rendering of a non-negative number, most significant digit
/// first, with no leading zeros (a single `'0'` for zero).
pub open spec fn spec_dec_digits(n: int) -> Seq<char>
    decreases n,
{
    if n < 10 {
        seq![spec_digit_char(n)]
    } else {
        spec_dec_digits(n / 10).push(spec_digit_char(n % 10))
    }
}

fn digit_str(d: u32) -> (r: &'static str)
    requires
        d < 10,
    ensures
        r@ == seq![spec_digit_char(d as int)],
{
    if d == 0 {
        proof {
            reveal_strlit("0");
            assert("0"@ =~= seq![spec_digit_char(0)]);
        }
        "0"
    } else if d == 1 {
        proof {
            reveal_strlit("1");
            assert("1"@ =~= seq![spec_digit_char(1)]);
        }
        "1"
    } else if d == 2 {
        proof {
            reveal_strlit("2");
            assert("2"@ =~= seq![spec_digit_char(2)]);
        }
        "2"
    } else if d == 3 {
        proof {
            reveal_strlit("3");
            assert("3"@ =~= seq![spec_digit_char(3)]);
        }
        "3"
    } else if d == 4 {
        proof {
            reveal_strlit("4");
            assert("4"@ =~= seq![spec_digit_char(4)]);
        }
        "4"
    } else if d == 5 {
        proof {
            reveal_strlit("5");
            assert("5"@ =~= seq![spec_digit_char(5)]);
        }
        "5"
    } else if d == 6 {
        proof {
            reveal_strlit("6");
            assert("6"@ =~= seq![spec_digit_char(6)]);
        }
        "6"
    } else if d == 7 {
        proof {
            reveal_strlit("7");
            assert("7"@ =~= seq![spec_digit_char(7)]);
        }
        "7"
    } else if d == 8 {
        proof {
            reveal_strlit("8");
            assert("8"@ =~= seq![spec_digit_char(8)]);
        }
        "8"
    } else {
        proof {
            reveal_strlit("9");
            assert("9"@ =~= seq![spec_digit_char(9)]);
        }
        "9"
    }
}

/// Renders a counter value in decimal.
pub fn u32_to_dec(n: u32) -> (r: String)
    ensures
        r@ == spec_dec_digits(n as int),
    decreases n,
{
    if n < 10 {
        String::from_str(digit_str(n))
    } else {
        let pre = u32_to_dec(n / 10);
        let r = pre.concat(digit_str(n % 10));
        proof {
            assert(r@ =~= spec_dec_digits(n as int / 10).push(spec_digit_char(n as int % 10)));
        }
        r
    }
}

/// The line recorded in a shard for one word-count entry:
/// `<word>:<count>` followed by a newline.
pub open spec fn spec_entry_line(word: Seq<char>, count: u32) -> Seq<char> {
    word + ":"@ + spec_dec_digits(count as int) + "\n"@
}

/// Builds the shard line for one word-count entry.
pub fn entry_line(word: &str, count: u32) -> (r: String)
    ensures
        r@ == spec_entry_line(word@, count),
{
    let mut r = String::from_str(word);
    r.append(":");
    let digits = u32_to_dec(count);
    r.append(digits.as_str());
    r.append("\n");
    r
}

/// The character sequences of a sequence of strings.
pub open spec fn strs_view(v: Seq<String>) -> Seq<Seq<char>> {
    v.map_values(|t: String| t@)
}

/// Whether `c` is one of the ASCII whitespace characters that separate
/// tokens within a line.
pub open spec fn spec_is_sep(c: char) -> bool {
    c == ' ' || c == '\t' || c == '\n' || c == '\r' || c == '\x0c'
}

fn is_sep(c: char) -> (r: bool)
    ensures
        r == spec_is_sep(c),
{
    c == ' ' || c == '\t' || c == '\n' || c == '\r' || c == '\x0c'
}

/// The tokens completed within the first `i` characters of `s`, paired
/// with the partial token in progress at position `i`.
pub open spec fn spec_tok_state(s: Seq<char>, i: int) -> (Seq<Seq<char>>, Seq<char>)
    decreases i,
{
    if i <= 0 {
        (Seq::<Seq<char>>::empty(), Seq::<char>::empty())
    } else {
        let prev = spec_tok_state(s, i - 1);
        if spec_is_sep(s[i - 1]) {
            if prev.1.len() == 0 {
                prev
            } else {
                (prev.0.push(prev.1), Seq::<char>::empty())
            }
        } else {
            (prev.0, prev.1.push(s[i - 1]))
        }
    }
}

/// The whitespace-separated tokens of a line, in order of appearance.
pub open spec fn spec_tokens(s: Seq<char>) -> Seq<Seq<char>> {
    let st = spec_tok_state(s, s.len() as int);
    if st.1.len() == 0 {
        st.0
    } else {
        st.0.push(st.1)
    }
}

/// Splits a line into its whitespace-separated tokens. Tokens carry no
/// normalization and keep punctuation; every token is non-empty.
pub fn tokenize(line: &str) -> (r: Vec<String>)
    ensures
        strs_view(r@) == spec_tokens(line@),
        forall|k: int| 0 <= k < r@.len() ==> r@[k]@.len() > 0,
{
    let n = line.unicode_len();
    let mut r: Vec<String> = Vec::new();
    let mut i: usize = 0;
    let mut start: usize = 0;
    let mut in_tok: bool = false;
    while i < n
        invariant
            n == line@.len(),
            i <= n,
            in_tok ==> start < i,
            in_tok ==> spec_tok_state(line@, i as int).1 == line@.subrange(
                start as int,
                i as int,
            ),
            !in_tok ==> spec_tok_state(line@, i as int).1 == Seq::<char>::empty(),
            strs_view(r@) == spec_tok_state(line@, i as int).0,
            forall|k: int| 0 <= k < r@.len() ==> r@[k]@.len() > 0,
        decreases n - i,
    {
        let ghost prev = spec_tok_state(line@, i as int);
        let c = line.get_char(i);
        if is_sep(c) {
            if in_tok {
                let tok = line.substring_char(start, i);
                let tok_string = String::from_str(tok);
                proof {
                    assert(strs_view(r@.push(tok_string)) =~= strs_view(r@).push(tok_string@));
                }
                r.push(tok_string);
                in_tok = false;
            }
        } else {
            if !in_tok {
                start = i;
                in_tok = true;
            }
            proof {
                assert(prev.1.push(line@[i as int]) =~= line@.subrange(
                    start as int,
                    i as int + 1,
                ));
            }
        }
        i = i + 1;
    }
    if in_tok {
        let tok = line.substring_char(start, n);
        let tok_string = String::from_str(tok);
        proof {
            assert(strs_view(r@.push(tok_string)) =~= strs_view(r@).push(tok_string@));
        }
        r.push(tok_string);
    }
    r
}

/// Compares two string slices by their characters.
pub fn str_eq(a: &str, b: &str) -> (r: bool)
    ensures
        r == (a@ == b@),
{
    let na = a.unicode_len();
    let nb = b.unicode_len();
    if na != nb {
        return false;
    }
    let mut i: usize = 0;
    while i < na
        invariant
            na == a@.len(),
            nb == b@.len(),
            na == nb,
            i <= na,
            forall|k: int| 0 <= k < i ==> a@[k] == b@[k],
        decreases na - i,
    {
        if a.get_char(i) != b.get_char(i) {
            return false;
        }
        i = i + 1;
    }
    proof {
        assert(a@ =~= b@);
    }
    true
}

/// What `str::to_lowercase` returns for a given sequence of characters.
pub uninterp spec fn lower_of(s: Seq<char>) -> Seq<char>;

/// Relies on `str::to_lowercase`: the result depends on the characters of
/// the input alone, and the lowercase mapping of a character is one or
/// more characters, so an empty input gives an empty result and a
/// non-empty input a non-empty one.
#[verifier::external_body]
pub(crate) fn to_lower(s: &str) -> (r: String)
    ensures
        r@ == lower_of(s@),
        s@.len() == 0 ==> r@.len() == 0,
        s@.len() > 0 ==> r@.len() > 0,
{
    s.to_lowercase()
}

} // verus!
