//! The configuration surface the coordinator consumes: input and output
//! paths, the palette size, and the two output switches. Parsing the
//! command line itself belongs to an outside collaborator; what lives here
//! is the configuration value and the pure rules on it — validating a
//! palette-size argument and deriving the default output file name.

use vstd::prelude::*;

verus! {

/// One run's configuration.
pub struct Config {
    pub input_file: String,
    pub output_file: String,
    pub n_colors: u32,
    pub image_output: bool,
    pub term_output: bool,
}

/// A decimal digit.
pub open spec fn is_digit(c: char) -> bool {
    48 <= c as int <= 57
}

/// The number a string of digits denotes.
pub open spec fn decimal_value(s: Seq<char>) -> int
    decreases s.len(),
{
    if s.len() == 0 {
        0
    } else {
        decimal_value(s.drop_last()) * 10 + (s.last() as int - 48)
    }
}

/// The digits of a count argument: everything after an optional leading
/// plus sign.
pub open spec fn digits_part(s: Seq<char>) -> Seq<char> {
    if s.len() > 0 && s[0] == '+' {
        s.skip(1)
    } else {
        s
    }
}

/// Every character is a decimal digit.
pub open spec fn all_digits(t: Seq<char>) -> bool {
    forall|i: int| 0 <= i < t.len() ==> is_digit(#[trigger] t[i])
}

/// One character that is no digit refutes `all_digits`.
proof fn lemma_not_all_digits(t: Seq<char>, i: int)
    requires
        0 <= i < t.len(),
        !is_digit(t[i]),
    ensures
        !all_digits(t),
{
}

/// What counts as a valid 8-bit color count: an optional leading plus sign,
/// then at least one digit, denoting a value of at most 255.
pub open spec fn is_u8_decimal(s: Seq<char>) -> bool {
    &&& digits_part(s).len() > 0
    &&& all_digits(digits_part(s))
    &&& decimal_value(digits_part(s)) <= 255
}

/// The complaint handed back for an invalid color-count argument.
pub open spec fn invalid_count_message() -> Seq<char> {
    "the number of colors must be a whole number between 0 and 255"@
}

/// Appending a digit multiplies the value by ten and adds it.
proof fn lemma_decimal_value_push(s: Seq<char>, c: char)
    ensures
        decimal_value(s.push(c)) == decimal_value(s) * 10 + (c as int - 48),
{
    assert(s.push(c).drop_last() =~= s);
    assert(s.push(c).last() == c);
}

/// The position of the last `.` of a name, or a negative value if it has
/// none.
pub open spec fn last_dot(s: Seq<char>) -> int
    decreases s.len(),
{
    if s.len() == 0 {
        -1
    } else if s.last() == '.' {
        s.len() - 1
    } else {
        last_dot(s.drop_last())
    }
}

/// The default output name: the input name with `_palette` spliced in
/// before the extension. A name with no extension has no default.
pub fn default_output_file(input: &str) -> (r: Option<String>)
    ensures
        match r {
            Option::Some(o) => {
                &&& last_dot(input@) >= 0
                &&& o@ == input@.subrange(0, last_dot(input@)) + "_palette."@ + input@.subrange(
                    last_dot(input@) + 1,
                    input@.len() as int,
                )
            },
            Option::None => last_dot(input@) < 0,
        },
{
    let n = input.unicode_len();
    let mut i: usize = n;
    proof {
        assert(input@.take(n as int) =~= input@);
    }
    while i > 0
        invariant
            i <= n,
            n == input@.len(),
            last_dot(input@) == last_dot(input@.take(i as int)),
        decreases i,
    {
        let c = input.get_char(i - 1);
        proof {
            assert(input@.take(i as int).last() == input@[i - 1]);
            assert(input@.take(i as int).drop_last() =~= input@.take(i - 1));
        }
        if c == '.' {
            let base = input.substring_char(0, i - 1);
            let ext = input.substring_char(i, n);
            proof {
                reveal_strlit("_palette.");
            }
            let mut out = String::from_str(base);
            out.append("_palette.");
            out.append(ext);
            proof {
                assert(last_dot(input@) == i - 1);
                assert(out@ =~= input@.subrange(0, last_dot(input@)) + "_palette."@
                    + input@.subrange(last_dot(input@) + 1, input@.len() as int));
            }
            return Option::Some(out);
        }
        i = i - 1;
    }
    proof {
        assert(input@.take(0) =~= Seq::<char>::empty());
    }
    Option::None
}

impl Config {
    /// Whether an argument names a palette size an 8-bit count can hold:
    /// accepted exactly when it is a decimal number of at most 255 (with an
    /// optional leading plus sign).
    pub fn valid_n_colors(arg: String) -> (r: Result<(), String>)
        ensures
            r is Ok <==> is_u8_decimal(arg@),
            r matches Err(m) ==> m@ == invalid_count_message(),
    {
        proof {
            reveal_strlit("the number of colors must be a whole number between 0 and 255");
        }
        let s = arg.as_str();
        let n = s.unicode_len();
        let start: usize = if n > 0 && s.get_char(0) == '+' {
            1
        } else {
            0
        };
        let ghost t = if start == 1 {
            arg@.skip(1)
        } else {
            arg@
        };
        proof {
            assert(digits_part(arg@) == t);
        }
        if n == start {
            return Result::Err(String::from_str(
                "the number of colors must be a whole number between 0 and 255",
            ));
        }
        let mut value: u32 = 0;
        let mut i: usize = start;
        while i < n
            invariant
                s@ == arg@,
                start <= i <= n,
                n == arg@.len(),
                start == 1 <==> (n > 0 && arg@[0] == '+'),
                start <= 1,
                t == if start == 1 {
                    arg@.skip(1)
                } else {
                    arg@
                },
                t.len() == n - start,
                forall|j: int| 0 <= j < i - start ==> is_digit(#[trigger] t[j]),
                value <= 300,
                (value <= 255 && value as int == decimal_value(t.take(i - start))) || (value == 300
                    && decimal_value(t.take(i - start)) > 255),
            decreases n - i,
        {
            let c = s.get_char(i);
            let code = c as u32;
            proof {
                assert(code as int == c as int);
                assert(t[i - start] == arg@[i as int]);
                assert(t.take(i - start + 1) =~= t.take(i - start).push(arg@[i as int]));
                lemma_decimal_value_push(t.take(i - start), arg@[i as int]);
            }
            if code < 48 || code > 57 {
                proof {
                    assert(arg@[i as int] == c);
                    assert(!is_digit(arg@[i as int]));
                    assert(!is_digit(t[i - start]));
                    assert(0 <= i - start < t.len());
                    assert(digits_part(arg@) == t);
                    lemma_not_all_digits(t, i - start);
                    assert(!is_u8_decimal(arg@));
                }
                return Result::Err(String::from_str(
                    "the number of colors must be a whole number between 0 and 255",
                ));
            }
            let digit = code - 48;
            let grown = value * 10 + digit;
            if value <= 255 && grown <= 255 {
                value = grown;
            } else {
                proof {
                    let prev = decimal_value(t.take(i - start));
                    assert(prev * 10 + (c as int - 48) > 255) by (nonlinear_arith)
                        requires
                            (prev > 255 && c as int >= 48) || (0 <= prev <= 255 && prev * 10 + (
                            c as int - 48) > 255),
                    ;
                }
                value = 300;
            }
            i = i + 1;
        }
        proof {
            assert(t.take(n - start) =~= t);
        }
        if value <= 255 {
            Result::Ok(())
        } else {
            Result::Err(String::from_str(
                "the number of colors must be a whole number between 0 and 255",
            ))
        }
    }
}

} // verus!
