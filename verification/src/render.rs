//! Rendering a sequence of numbers into fixed-width rows: each entry
//! right-aligned in a 3-character field, 10 entries per row, a single space
//! between entries of one row, and a final row break after a partial row.

use vstd::prelude::*;
use vstd::string::StringExecFns;

verus! {

/// The decimal digit character for a value in `[0, 9]`.
pub open spec fn digit_char(d: int) -> char {
    if d == 0 {
        '0'
    } else if d == 1 {
        '1'
    } else if d == 2 {
        '2'
    } else if d == 3 {
        '3'
    } else if d == 4 {
        '4'
    } else if d == 5 {
        '5'
    } else if d == 6 {
        '6'
    } else if d == 7 {
        '7'
    } else if d == 8 {
        '8'
    } else {
        '9'
    }
}

/// The decimal digits of a non-negative value, most significant first.
pub open spec fn decimal_digits(v: int) -> Seq<char>
    decreases v,
{
    if v < 10 {
        seq![digit_char(v)]
    } else {
        decimal_digits(v / 10).push(digit_char(v % 10))
    }
}

/// A value right-aligned in a field of width 3: values under 1000 are
/// padded with spaces to 3 characters, larger values keep all their digits.
pub open spec fn padded_decimal(v: usize) -> Seq<char> {
    if v < 10 {
        seq![' ', ' '] + decimal_digits(v as int)
    } else if v < 100 {
        seq![' '] + decimal_digits(v as int)
    } else {
        decimal_digits(v as int)
    }
}

/// What follows the `n`-th entry (1-based) of `s`: a row break after every
/// 10th entry, a separating space before a following entry in the same row,
/// and nothing after a final partial-row entry.
pub open spec fn row_sep(s: Seq<usize>, n: int) -> Seq<char> {
    if n % 10 == 0 {
        seq!['\n']
    } else if n < s.len() {
        seq![' ']
    } else {
        Seq::empty()
    }
}

/// The rendering of the first `n` entries of `s`, each padded entry
/// followed by its separator.
pub open spec fn row_body(s: Seq<usize>, n: int) -> Seq<char>
    decreases n,
{
    if n <= 0 {
        Seq::empty()
    } else {
        row_body(s, n - 1) + padded_decimal(s[n - 1]) + row_sep(s, n)
    }
}

/// The full rendering of `s`: every entry with its separator, and one final
/// row break when the last row is partial, so the text never ends with a
/// dangling space.
pub open spec fn render_spec(s: Seq<usize>) -> Seq<char> {
    row_body(s, s.len() as int) + if s.len() > 0 && s.len() % 10 != 0 {
        seq!['\n']
    } else {
        Seq::empty()
    }
}

/// Appends the digit character for `d` to `out`.
fn append_digit(out: &mut String, d: usize)
    requires
        d < 10,
    ensures
        final(out)@ == old(out)@.push(digit_char(d as int)),
{
    if d == 0 {
        out.append("0");
        proof {
            reveal_strlit("0");
            assert(out@ =~= old(out)@.push('0'));
        }
    } else if d == 1 {
        out.append("1");
        proof {
            reveal_strlit("1");
            assert(out@ =~= old(out)@.push('1'));
        }
    } else if d == 2 {
        out.append("2");
        proof {
            reveal_strlit("2");
            assert(out@ =~= old(out)@.push('2'));
        }
    } else if d == 3 {
        out.append("3");
        proof {
            reveal_strlit("3");
            assert(out@ =~= old(out)@.push('3'));
        }
    } else if d == 4 {
        out.append("4");
        proof {
            reveal_strlit("4");
            assert(out@ =~= old(out)@.push('4'));
        }
    } else if d == 5 {
        out.append("5");
        proof {
            reveal_strlit("5");
            assert(out@ =~= old(out)@.push('5'));
        }
    } else if d == 6 {
        out.append("6");
        proof {
            reveal_strlit("6");
            assert(out@ =~= old(out)@.push('6'));
        }
    } else if d == 7 {
        out.append("7");
        proof {
            reveal_strlit("7");
            assert(out@ =~= old(out)@.push('7'));
        }
    } else if d == 8 {
        out.append("8");
        proof {
            reveal_strlit("8");
            assert(out@ =~= old(out)@.push('8'));
        }
    } else {
        out.append("9");
        proof {
            reveal_strlit("9");
            assert(out@ =~= old(out)@.push('9'));
        }
    }
}

/// Appends the decimal digits of `v` to `out`, most significant first.
fn append_decimal(out: &mut String, v: usize)
    ensures
        final(out)@ == old(out)@ + decimal_digits(v as int),
    decreases v,
{
    if v < 10 {
        append_digit(out, v);
        proof {
            assert(out@ =~= old(out)@ + decimal_digits(v as int));
        }
    } else {
        append_decimal(out, v / 10);
        append_digit(out, v % 10);
        proof {
            assert(out@ =~= old(out)@ + decimal_digits(v as int));
        }
    }
}

/// Appends `v` right-aligned in a 3-character field to `out`.
fn append_padded(out: &mut String, v: usize)
    ensures
        final(out)@ == old(out)@ + padded_decimal(v),
{
    if v < 10 {
        proof {
            reveal_strlit(" ");
        }
        out.append(" ");
        out.append(" ");
    } else if v < 100 {
        proof {
            reveal_strlit(" ");
        }
        out.append(" ");
    }
    append_decimal(out, v);
    proof {
        assert(out@ =~= old(out)@ + padded_decimal(v));
    }
}

/// Renders `values` into fixed-width rows of 10 entries.
pub fn render(values: &Vec<usize>) -> (out: String)
    ensures
        out@ == render_spec(values@),
{
    let mut out = String::new();
    let mut idx: usize = 0;
    while idx < values.len()
        invariant
            idx <= values@.len(),
            out@ == row_body(values@, idx as int),
        decreases values@.len() - idx,
    {
        append_padded(&mut out, values[idx]);
        if (idx + 1) % 10 == 0 {
            out.append("\n");
            proof {
                reveal_strlit("\n");
                assert(out@ =~= row_body(values@, idx + 1));
            }
        } else if idx + 1 < values.len() {
            out.append(" ");
            proof {
                reveal_strlit(" ");
                assert(out@ =~= row_body(values@, idx + 1));
            }
        } else {
            proof {
                assert(out@ =~= row_body(values@, idx + 1));
            }
        }
        idx += 1;
    }
    if values.len() > 0 && values.len() % 10 != 0 {
        out.append("\n");
        proof {
            reveal_strlit("\n");
        }
    }
    proof {
        assert(out@ =~= render_spec(values@));
    }
    out
}

} // verus!
