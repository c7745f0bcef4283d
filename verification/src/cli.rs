//! Parsing of command line values.
use vstd::prelude::*;

verus! {

/// The pieces of `s` between occurrences of `sep`, as `str::split` yields
/// them (empty pieces included; one more piece than separators).
pub open spec fn split_on(s: Seq<char>, sep: char) -> Seq<Seq<char>>
    decreases s.len(),
{
    if s.len() == 0 {
        seq![Seq::empty()]
    } else {
        let pieces = split_on(s.drop_last(), sep);
        if s.last() == sep {
            pieces.push(Seq::empty())
        } else {
            pieces.update(pieces.len() - 1, pieces.last().push(s.last()))
        }
    }
}

/// Whether `c` is an ASCII decimal digit.
pub open spec fn is_digit(c: char) -> bool {
    '0' <= c <= '9'
}

/// The value of a sequence of decimal digits.
pub open spec fn decimal_value(d: Seq<char>) -> nat
    decreases d.len(),
{
    if d.len() == 0 {
        0
    } else {
        decimal_value(d.drop_last()) * 10 + (d.last() as nat - '0' as nat) as nat
    }
}

/// `s` without one leading `+`, if it has one.
pub open spec fn sign_stripped(s: Seq<char>) -> Seq<char> {
    if s.len() > 0 && s[0] == '+' {
        s.subrange(1, s.len() as int)
    } else {
        s
    }
}

/// Every character of `d` is a decimal digit.
pub open spec fn all_digits(d: Seq<char>) -> bool {
    forall|i: int| 0 <= i < d.len() ==> is_digit(#[trigger] d[i])
}

/// What `u32::from_str` accepts: an optional `+` followed by at least one
/// decimal digit, with a value that fits in `u32`.
pub open spec fn u32_from_decimal(s: Seq<char>) -> Option<u32> {
    let digits = sign_stripped(s);
    if digits.len() == 0 {
        None
    } else if !all_digits(digits) {
        None
    } else if decimal_value(digits) > u32::MAX {
        None
    } else {
        Some(decimal_value(digits) as u32)
    }
}

/// A longer run of digits is worth at least as much as its start.
proof fn lemma_decimal_prefix(d: Seq<char>, m: int)
    requires
        0 <= m <= d.len(),
        all_digits(d),
    ensures
        decimal_value(d.take(m)) <= decimal_value(d),
    decreases d.len(),
{
    if m < d.len() {
        let p = d.drop_last();
        assert(p.take(m) =~= d.take(m));
        lemma_decimal_prefix(p, m);
    } else {
        assert(d.take(m) =~= d);
    }
}

/// Parses a `u32` as `str::parse::<u32>` does, with the error dropped: an
/// optional `+`, then decimal digits only, at least one, with a value at
/// most `u32::MAX`.
fn parse_u32(s: &str) -> (r: Option<u32>)
    ensures
        r == u32_from_decimal(s@),
{
    let n = s.unicode_len();
    let start: usize = if n > 0 && s.get_char(0) == '+' { 1 } else { 0 };
    let ghost digits = sign_stripped(s@);
    proof {
        assert(digits =~= s@.subrange(start as int, n as int));
    }
    if start == n {
        return None;
    }
    let mut acc: u64 = 0;
    let mut i: usize = start;
    while i < n
        invariant
            n == s@.len(),
            start <= i <= n,
            start < n,
            digits == s@.subrange(start as int, n as int),
            digits == sign_stripped(s@),
            forall|k: int| 0 <= k < i - start ==> is_digit(#[trigger] digits[k]),
            acc as int == decimal_value(digits.take(i - start)),
            acc <= u32::MAX,
        decreases n - i,
    {
        let c = s.get_char(i);
        assert(c == digits[i - start]);
        if c < '0' || c > '9' {
            assert(!is_digit(digits[i - start]));
            return None;
        }
        let dgt = (c as u64) - ('0' as u64);
        assert(digits.take(i - start + 1).drop_last() =~= digits.take(i - start));
        acc = acc * 10 + dgt;
        i = i + 1;
        assert(acc as int == decimal_value(digits.take(i - start)));
        if acc > 0xffff_ffff {
            proof {
                if all_digits(digits) {
                    lemma_decimal_prefix(digits, i - start);
                }
            }
            return None;
        }
    }
    assert(digits.take(n - start) =~= digits);
    Some(acc as u32)
}

/// The outcome of parsing a `WIDTHxHEIGHT` size: exactly two pieces around
/// `x`, each a `u32`, or the first error met.
pub open spec fn size_outcome(s: Seq<char>) -> Result<(u32, u32), Seq<char>> {
    let parts = split_on(s, 'x');
    if parts.len() != 2 {
        Err("Invalid size format: "@ + s + ". Expected WIDTHxHEIGHT"@)
    } else if u32_from_decimal(parts[0]) is None {
        Err("Invalid width: "@ + parts[0])
    } else if u32_from_decimal(parts[1]) is None {
        Err("Invalid height: "@ + parts[1])
    } else {
        Ok((u32_from_decimal(parts[0])->0, u32_from_decimal(parts[1])->0))
    }
}

/// The view of a size parsing result.
pub open spec fn size_result_view(r: Result<(u32, u32), String>) -> Result<(u32, u32), Seq<char>> {
    match r {
        Ok(v) => Ok(v),
        Err(e) => Err(e@),
    }
}

/// Splits `s` at every `sep`, as `str::split` does.
pub fn split_string(s: &str, sep: char) -> (parts: Vec<String>)
    ensures
        parts@.map_values(|p: String| p@) == split_on(s@, sep),
{
    let n = s.unicode_len();
    let mut done: Vec<String> = Vec::new();
    let mut cur = String::new();
    let mut i: usize = 0;
    while i < n
        invariant
            n == s@.len(),
            i <= n,
            done@.map_values(|p: String| p@).push(cur@) == split_on(s@.subrange(0, i as int), sep),
        decreases n - i,
    {
        let c = s.get_char(i);
        let ghost prefix = s@.subrange(0, (i + 1) as int);
        assert(prefix.drop_last() =~= s@.subrange(0, i as int));
        if c == sep {
            done.push(cur);
            cur = String::new();
            assert(done@.map_values(|p: String| p@).push(cur@) =~= split_on(prefix, sep));
        } else {
            let ghost old_cur = cur@;
            let ghost pieces = done@.map_values(|p: String| p@).push(cur@);
            let piece = s.substring_char(i, i + 1);
            assert(piece@ =~= seq![c]);
            cur.append(piece);
            assert(cur@ =~= old_cur.push(c));
            assert(prefix.last() == c);
            assert(split_on(prefix, sep) == pieces.update(pieces.len() - 1, old_cur.push(c)));
            assert(done@.map_values(|p: String| p@).push(cur@) =~= split_on(prefix, sep));
        }
        i = i + 1;
    }
    assert(s@.subrange(0, n as int) =~= s@);
    done.push(cur);
    assert(done@.map_values(|p: String| p@) =~= split_on(s@, sep));
    done
}

/// Parses an image size written `WIDTHxHEIGHT`.
pub fn parse_size(s: &str) -> (r: Result<(u32, u32), String>)
    ensures
        size_result_view(r) == size_outcome(s@),
{
    let done = split_string(s, 'x');
    assert(done@.len() == split_on(s@, 'x').len());
    if done.len() != 2 {
        let mut msg = String::from_str("Invalid size format: ");
        msg.append(s);
        msg.append(". Expected WIDTHxHEIGHT");
        return Err(msg);
    }
    assert(done@[0]@ == split_on(s@, 'x')[0]);
    assert(done@[1]@ == split_on(s@, 'x')[1]);
    let width = match parse_u32(done[0].as_str()) {
        Some(w) => w,
        None => {
            let mut msg = String::from_str("Invalid width: ");
            msg.append(done[0].as_str());
            return Err(msg);
        },
    };
    let height = match parse_u32(done[1].as_str()) {
        Some(h) => h,
        None => {
            let mut msg = String::from_str("Invalid height: ");
            msg.append(done[1].as_str());
            return Err(msg);
        },
    };
    Ok((width, height))
}

/// The image size named by a configuration's size text: `WIDTH:HEIGHT` if
/// the text holds a `:`, else `WIDTHxHEIGHT`; text that does not parse as two
/// `u32` parts gives the default 1920 by 1080.
pub open spec fn image_size_of(s: Seq<char>) -> (u32, u32) {
    let sep = if s.contains(':') { ':' } else { 'x' };
    let parts = split_on(s, sep);
    if parts.len() == 2 && u32_from_decimal(parts[0]) is Some && u32_from_decimal(parts[1]) is Some {
        (u32_from_decimal(parts[0])->0, u32_from_decimal(parts[1])->0)
    } else {
        (1920, 1080)
    }
}

/// Whether `s` holds the character `c`.
fn contains_char(s: &str, c: char) -> (b: bool)
    ensures
        b == s@.contains(c),
{
    let n = s.unicode_len();
    let mut i: usize = 0;
    while i < n
        invariant
            n == s@.len(),
            i <= n,
            forall|k: int| 0 <= k < i ==> s@[k] != c,
        decreases n - i,
    {
        if s.get_char(i) == c {
            return true;
        }
        i = i + 1;
    }
    false
}

/// The image size a configuration's size text names, as `image_size_of`
/// says.
pub fn image_size(size: &str) -> (r: (u32, u32))
    ensures
        r == image_size_of(size@),
{
    let sep = if contains_char(size, ':') { ':' } else { 'x' };
    let parts = split_string(size, sep);
    assert(parts@.len() == split_on(size@, sep).len());
    if parts.len() == 2 {
        assert(parts@[0]@ == split_on(size@, sep)[0]);
        assert(parts@[1]@ == split_on(size@, sep)[1]);
        match (parse_u32(parts[0].as_str()), parse_u32(parts[1].as_str())) {
            (Some(w), Some(h)) => (w, h),
            _ => (1920, 1080),
        }
    } else {
        (1920, 1080)
    }
}

} // verus!
