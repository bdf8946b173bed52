use vstd::prelude::*;
use vstd::string::StrSliceExecFns;

verus! {

/// `c` is a decimal digit.
pub open spec fn is_digit(c: char) -> bool {
    48 <= c as int <= 57
}

/// The numeric value of a digit string, most significant digit first.
pub open spec fn digits_val(s: Seq<char>) -> int
    decreases s.len(),
{
    if s.len() == 0 {
        0
    } else {
        digits_val(s.drop_last()) * 10 + (s.last() as int - 48)
    }
}

pub open spec fn all_digits(s: Seq<char>) -> bool {
    forall|i: int| 0 <= i < s.len() ==> is_digit(#[trigger] s[i])
}

/// What parsing one token accepts: an optional sign followed by one or
/// more digits, with a value that fits an `i64`; anything else is
/// rejected.
pub open spec fn spec_parse_int(s: Seq<char>) -> Option<i64> {
    let neg = s.len() > 0 && s[0] == '-';
    let signed = s.len() > 0 && (s[0] == '-' || s[0] == '+');
    let ds = if signed {
        s.drop_first()
    } else {
        s
    };
    if ds.len() == 0 || !all_digits(ds) {
        None
    } else {
        let v = if neg {
            -digits_val(ds)
        } else {
            digits_val(ds)
        };
        if i64::MIN <= v <= i64::MAX {
            Some(v as i64)
        } else {
            None
        }
    }
}

proof fn lemma_digits_val_nonneg(s: Seq<char>)
    requires
        all_digits(s),
    ensures
        digits_val(s) >= 0,
    decreases s.len(),
{
    if s.len() > 0 {
        assert(all_digits(s.drop_last())) by {
            assert(forall|i: int|
                0 <= i < s.drop_last().len() ==> #[trigger] s.drop_last()[i] == s[i]);
        }
        lemma_digits_val_nonneg(s.drop_last());
        assert(is_digit(s.last()));
    }
}

proof fn lemma_digits_val_prefix(s: Seq<char>, k: int)
    requires
        all_digits(s),
        0 <= k <= s.len(),
    ensures
        digits_val(s.take(k)) <= digits_val(s),
    decreases s.len() - k,
{
    if k == s.len() {
        assert(s.take(k) =~= s);
    } else {
        lemma_digits_val_prefix(s, k + 1);
        assert(s.take(k + 1).drop_last() =~= s.take(k));
        assert(s.take(k + 1).last() == s[k]);
        assert(all_digits(s.take(k))) by {
            assert(forall|i: int| 0 <= i < k ==> #[trigger] s.take(k)[i] == s[i]);
        }
        lemma_digits_val_nonneg(s.take(k));
        assert(is_digit(s[k]));
        assert(digits_val(s.take(k + 1)) == digits_val(s.take(k)) * 10 + (s[k] as int - 48));
    }
}

/// The value of a digit character, or `None` for any other character.
fn digit_of(c: char) -> (r: Option<u8>)
    ensures
        r matches Some(d) ==> is_digit(c) && d as int == c as int - 48,
        r is None ==> !is_digit(c),
{
    match c {
        '0' => Some(0),
        '1' => Some(1),
        '2' => Some(2),
        '3' => Some(3),
        '4' => Some(4),
        '5' => Some(5),
        '6' => Some(6),
        '7' => Some(7),
        '8' => Some(8),
        '9' => Some(9),
        _ => None,
    }
}

/// Parse the token at `[from, to)` of `s` as a decimal integer.
pub fn parse_int_range(s: &Vec<char>, from: usize, to: usize) -> (r: Option<i64>)
    requires
        from <= to <= s@.len(),
    ensures
        r == spec_parse_int(s@.subrange(from as int, to as int)),
{
    let ghost tok = s@.subrange(from as int, to as int);
    let mut p = from;
    let mut neg = false;
    if p < to && (s[p] == '-' || s[p] == '+') {
        neg = s[p] == '-';
        p += 1;
        proof {
            assert(s@.subrange(p as int, to as int) =~= tok.drop_first());
        }
    } else {
        proof {
            assert(s@.subrange(p as int, to as int) =~= tok);
        }
    }
    let ghost ds = s@.subrange(p as int, to as int);
    if p == to {
        return None;
    }
    let mut acc: u128 = 0;
    let mut j = p;
    while j < to
        invariant
            from <= p <= j <= to <= s@.len(),
            p < to,
            tok == s@.subrange(from as int, to as int),
            ds == s@.subrange(p as int, to as int),
            ds == (if tok.len() > 0 && (tok[0] == '-' || tok[0] == '+') {
                tok.drop_first()
            } else {
                tok
            }),
            neg == (tok.len() > 0 && tok[0] == '-'),
            all_digits(s@.subrange(p as int, j as int)),
            acc as int == digits_val(s@.subrange(p as int, j as int)),
            acc <= 0x8000_0000_0000_0000u128,
        decreases to - j,
    {
        let c = s[j];
        let d = match digit_of(c) {
            Some(d) => d,
            None => {
                proof {
                    assert(ds[j as int - p as int] == s@[j as int]);
                    assert(!is_digit(ds[j as int - p as int]));
                    assert(!all_digits(ds));
                }
                return None;
            },
        };
        acc = acc * 10 + (d as u128);
        proof {
            assert(is_digit(s@[j as int]));
            let pre = s@.subrange(p as int, j as int);
            let ext = s@.subrange(p as int, j as int + 1);
            assert(ext.drop_last() =~= pre);
            assert(ext.last() == s@[j as int]);
            assert(all_digits(ext)) by {
                assert(forall|m: int| 0 <= m < pre.len() ==> #[trigger] ext[m] == pre[m]);
                assert(ext[ext.len() - 1] == s@[j as int]);
            }
            assert(digits_val(ext) == digits_val(pre) * 10 + (s@[j as int] as int - 48));
            assert(acc as int == digits_val(ext));
        }
        j += 1;
        if acc > 0x8000_0000_0000_0000u128 {
            proof {
                if all_digits(ds) {
                    assert(ds.take(j as int - p as int) =~= s@.subrange(p as int, j as int));
                    lemma_digits_val_prefix(ds, j as int - p as int);
                }
            }
            return None;
        }
    }
    proof {
        assert(s@.subrange(p as int, j as int) =~= ds);
    }
    if neg {
        if acc == 0x8000_0000_0000_0000u128 {
            Some(i64::MIN)
        } else {
            Some(-(acc as i64))
        }
    } else {
        if acc > 0x7fff_ffff_ffff_ffffu128 {
            None
        } else {
            Some(acc as i64)
        }
    }
}

/// The index of the first separator bar of `s`, or its length when
/// there is none.
pub open spec fn first_sep(s: Seq<char>) -> int
    decreases s.len(),
{
    if s.len() == 0 {
        0
    } else if s[0] == '|' {
        0
    } else {
        1 + first_sep(s.drop_first())
    }
}

proof fn lemma_first_sep_bounds(s: Seq<char>)
    ensures
        0 <= first_sep(s) <= s.len(),
    decreases s.len(),
{
    if s.len() > 0 && s[0] != '|' {
        lemma_first_sep_bounds(s.drop_first());
    }
}

proof fn lemma_first_sep_at(s: Seq<char>, k: int)
    requires
        0 <= k <= s.len(),
        forall|j: int| 0 <= j < k ==> s[j] != '|',
        k < s.len() ==> s[k] == '|',
    ensures
        first_sep(s) == k,
    decreases s.len(),
{
    if s.len() > 0 && k > 0 {
        assert(s[0] != '|');
        assert(forall|j: int| 0 <= j < k - 1 ==> #[trigger] s.drop_first()[j] == s[j + 1]);
        assert(k - 1 < s.drop_first().len() ==> s.drop_first()[k - 1] == s[k]);
        lemma_first_sep_at(s.drop_first(), k - 1);
    }
}

/// The die values read from a separator-joined list of tokens: every
/// token that parses contributes its value, in order, and every token
/// that does not parse is silently dropped.
pub open spec fn spec_parse_dice(s: Seq<char>) -> Seq<i64>
    decreases s.len(),
    via spec_parse_dice_dec
{
    let k = first_sep(s);
    let head = match spec_parse_int(s.take(k)) {
        Some(v) => seq![v],
        None => Seq::<i64>::empty(),
    };
    if k == s.len() {
        head
    } else {
        head + spec_parse_dice(s.skip(k + 1))
    }
}

#[via_fn]
proof fn spec_parse_dice_dec(s: Seq<char>) {
    lemma_first_sep_bounds(s);
}

/// Read a string's characters into a vector.
fn chars_of(input: &str) -> (r: Vec<char>)
    ensures
        r@ == input@,
{
    let n = input.unicode_len();
    let mut chars: Vec<char> = Vec::new();
    let mut i: usize = 0;
    while i < n
        invariant
            i <= n,
            n == input@.len(),
            chars@ == input@.take(i as int),
        decreases n - i,
    {
        chars.push(input.get_char(i));
        proof {
            assert(input@.take(i as int + 1) =~= input@.take(i as int).push(input@[i as int]));
        }
        i += 1;
    }
    proof {
        assert(input@.take(n as int) =~= input@);
    }
    chars
}

/// Parse the die values out of a separator-joined token list; tokens
/// that are not integers are dropped.
pub fn parse_dice(input: &str) -> (r: Vec<i64>)
    ensures
        r@ == spec_parse_dice(input@),
{
    let chars = chars_of(input);
    let n = chars.len();
    let mut out: Vec<i64> = Vec::new();
    let mut start: usize = 0;
    let mut done = false;
    proof {
        assert(input@.skip(0) =~= input@);
        assert(out@ + spec_parse_dice(input@) =~= spec_parse_dice(input@));
    }
    while !done
        invariant
            n == input@.len(),
            chars@ == input@,
            start <= n,
            !done ==> out@ + spec_parse_dice(input@.skip(start as int)) == spec_parse_dice(
                input@,
            ),
            done ==> out@ == spec_parse_dice(input@),
        decreases n - start, (if done { 0int } else { 1int }),
    {
        let mut j = start;
        while j < n && chars[j] != '|'
            invariant
                start <= j <= n,
                n == chars@.len(),
                forall|k: int| start <= k < j ==> chars@[k] != '|',
            decreases n - j,
        {
            j += 1;
        }
        let ghost suffix = input@.skip(start as int);
        proof {
            assert(forall|m: int|
                0 <= m < suffix.len() ==> #[trigger] suffix[m] == input@[start as int + m]);
            lemma_first_sep_at(suffix, j as int - start as int);
            assert(suffix.take(j as int - start as int) =~= input@.subrange(
                start as int,
                j as int,
            ));
        }
        let head = parse_int_range(&chars, start, j);
        match head {
            Some(v) => {
                out.push(v);
            },
            None => {},
        }
        if j == n {
            proof {
                assert(spec_parse_dice(suffix) == (match spec_parse_int(
                    input@.subrange(start as int, j as int),
                ) {
                    Some(v) => seq![v],
                    None => Seq::<i64>::empty(),
                }));
                assert(out@ == spec_parse_dice(input@));
            }
            done = true;
        } else {
            proof {
                assert(suffix.skip(j as int - start as int + 1) =~= input@.skip(j as int + 1));
                assert(spec_parse_dice(suffix) == (match spec_parse_int(
                    input@.subrange(start as int, j as int),
                ) {
                    Some(v) => seq![v],
                    None => Seq::<i64>::empty(),
                }) + spec_parse_dice(input@.skip(j as int + 1)));
                assert(out@ + spec_parse_dice(input@.skip(j as int + 1)) == spec_parse_dice(
                    input@,
                ));
            }
            start = j + 1;
        }
    }
    out
}

/// Parse the level text as a decimal integer; the caller checks the
/// range.
pub fn parse_level(input: &str) -> (r: Option<i64>)
    ensures
        r == spec_parse_int(input@),
{
    let chars = chars_of(input);
    let n = chars.len();
    proof {
        assert(input@.subrange(0, n as int) =~= input@);
    }
    parse_int_range(&chars, 0, n)
}

} // verus!
