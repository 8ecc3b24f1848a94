//! Text handling for staking messages: splitting, decimal numbers and account ids.
use vstd::prelude::*;
use vstd::std_specs::iter::IteratorSpec;

verus! {

broadcast use vstd::string::group_string_axioms;

/// The pieces of `s` between occurrences of `sep`, as `str::split` yields them.
pub open spec fn split_at_sep(s: Seq<char>, sep: char) -> Seq<Seq<char>>
    decreases s.len(),
{
    if s.len() == 0 {
        seq![Seq::<char>::empty()]
    } else {
        let prev = split_at_sep(s.drop_last(), sep);
        if s.last() == sep {
            prev.push(Seq::<char>::empty())
        } else {
            prev.update(prev.len() - 1, prev.last().push(s.last()))
        }
    }
}

/// The character views of a sequence of strings.
pub open spec fn str_views(v: Seq<String>) -> Seq<Seq<char>> {
    v.map_values(|p: String| p@)
}

pub proof fn lemma_split_nonempty(s: Seq<char>, sep: char)
    ensures
        split_at_sep(s, sep).len() >= 1,
    decreases s.len(),
{
    if s.len() > 0 {
        lemma_split_nonempty(s.drop_last(), sep);
    }
}

/// Appends `c` with std's `String::push`; the contract claims that the string afterwards is the
/// one before with `c` added at its end.
#[verifier::external_body]
fn push_char(s: &mut String, c: char)
    ensures
        final(s)@ == old(s)@.push(c),
{
    s.push(c);
}

/// Splits `s` at every occurrence of `sep`.
pub fn split_on(s: &str, sep: char) -> (parts: Vec<String>)
    ensures
        str_views(parts@) == split_at_sep(s@, sep),
{
    let mut parts: Vec<String> = Vec::new();
    let mut cur = String::new();
    let mut it = s.chars();
    let ghost mut consumed: Seq<char> = Seq::empty();
    assert(str_views(parts@).push(cur@) =~= split_at_sep(consumed, sep));
    loop
        invariant
            it.obeys_prophetic_iter_laws(),
            consumed + it.remaining() == s@,
            str_views(parts@).push(cur@) == split_at_sep(consumed, sep),
        decreases s@.len() - consumed.len(),
    {
        let ghost old_rem = it.remaining();
        match it.next() {
            Some(c) => {
                proof {
                    assert(consumed.push(c).drop_last() =~= consumed);
                    assert(consumed.push(c) + it.remaining() =~= s@);
                }
                if c == sep {
                    parts.push(cur);
                    cur = String::new();
                } else {
                    push_char(&mut cur, c);
                }
                proof {
                    consumed = consumed.push(c);
                }
                assert(str_views(parts@).push(cur@) =~= split_at_sep(consumed, sep));
            },
            None => {
                assert(consumed =~= s@);
                parts.push(cur);
                assert(str_views(parts@) =~= split_at_sep(s@, sep));
                return parts;
            },
        }
    }
}


/// Appends every character of `src` to `dst`.
pub fn push_str_chars(dst: &mut String, src: &str)
    ensures
        final(dst)@ == old(dst)@ + src@,
{
    let mut it = src.chars();
    let ghost mut consumed: Seq<char> = Seq::empty();
    assert(old(dst)@ + consumed =~= old(dst)@);
    loop
        invariant
            it.obeys_prophetic_iter_laws(),
            consumed + it.remaining() == src@,
            dst@ == old(dst)@ + consumed,
        decreases src@.len() - consumed.len(),
    {
        match it.next() {
            Some(c) => {
                proof {
                    assert(consumed.push(c) + it.remaining() =~= src@);
                }
                push_char(dst, c);
                proof {
                    consumed = consumed.push(c);
                }
                assert(dst@ =~= old(dst)@ + consumed);
            },
            None => {
                assert(consumed =~= src@);
                return;
            },
        }
    }
}

/// `c` is one of the ASCII digits `0` to `9`.
pub open spec fn is_digit(c: char) -> bool {
    48 <= (c as int) <= 57
}

/// The numeric value of an ASCII digit.
pub open spec fn digit_value(c: char) -> int {
    (c as int) - 48
}

/// The ASCII digit of a number below ten.
pub open spec fn digit_char(d: nat) -> char {
    (48 + d) as char
}

/// The value of a sequence of decimal digits, most significant first.
pub open spec fn digits_value(s: Seq<char>) -> int
    decreases s.len(),
{
    if s.len() == 0 {
        0
    } else {
        digits_value(s.drop_last()) * 10 + digit_value(s.last())
    }
}

/// All characters of `s` are decimal digits.
pub open spec fn all_digits(s: Seq<char>) -> bool {
    forall|i: int| 0 <= i < s.len() ==> is_digit(#[trigger] s[i])
}

/// What `str::parse::<u64>` gives back: an optional `+` sign, then one or more decimal digits
/// whose value fits in a `u64`; anything else is an error.
pub open spec fn parse_u64_spec(s: Seq<char>) -> Option<u64> {
    let d = if s.len() > 0 && s[0] == '+' {
        s.drop_first()
    } else {
        s
    };
    if d.len() > 0 && all_digits(d) && digits_value(d) <= u64::MAX {
        Some(digits_value(d) as u64)
    } else {
        None
    }
}

/// The decimal representation of `n`, without leading zeros, as `Display` writes it.
pub open spec fn decimal(n: nat) -> Seq<char>
    decreases n,
{
    if n < 10 {
        seq![digit_char(n)]
    } else {
        decimal(n / 10).push(digit_char(n % 10))
    }
}

/// Appends the decimal representation of `n` to `s`.
fn push_decimal(s: &mut String, n: u64)
    ensures
        final(s)@ == old(s)@ + decimal(n as nat),
    decreases n,
{
    if n >= 10 {
        push_decimal(s, n / 10);
    }
    let d: u8 = (n % 10) as u8;
    let c: char = (48u8 + d) as char;
    assert(c == digit_char((n % 10) as nat));
    push_char(s, c);
    proof {
        if n >= 10 {
            assert(decimal(n as nat) == decimal((n / 10) as nat).push(c));
        } else {
            assert(decimal(n as nat) == seq![c]);
        }
        assert(final(s)@ =~= old(s)@ + decimal(n as nat));
    }
}

/// Parses a decimal `u64` as `str::parse` does: an optional `+`, then one or more digits
/// whose value fits in a `u64`.
pub fn parse_decimal_u64(s: &str) -> (r: Option<u64>)
    ensures
        r == parse_u64_spec(s@),
{
    let mut it = s.chars();
    let ghost mut consumed: Seq<char> = Seq::empty();
    let ghost mut start: int = 0;
    let mut first = true;
    let mut value: u64 = 0;
    let mut overflow = false;
    let mut any_digit = false;
    loop
        invariant
            it.obeys_prophetic_iter_laws(),
            consumed + it.remaining() == s@,
            first <==> consumed.len() == 0,
            first ==> start == 0,
            !first ==> (start == 1 <==> s@[0] == '+'),
            0 <= start <= 1,
            start <= consumed.len(),
            any_digit <==> start < consumed.len(),
            all_digits(consumed.subrange(start, consumed.len() as int)),
            !overflow ==> value == digits_value(consumed.subrange(start, consumed.len() as int)),
            overflow ==> digits_value(consumed.subrange(start, consumed.len() as int)) > u64::MAX,
        decreases s@.len() - consumed.len(),
    {
        let ghost d0 = consumed.subrange(start, consumed.len() as int);
        match it.next() {
            Some(c) => {
                proof {
                    assert(consumed.push(c) + it.remaining() =~= s@);
                    assert(s@[consumed.len() as int] == c);
                }
                if first && c == '+' {
                    first = false;
                    proof {
                        start = 1;
                        consumed = consumed.push(c);
                        assert(consumed.subrange(start, consumed.len() as int) =~= Seq::<
                            char,
                        >::empty());
                    }
                } else {
                    first = false;
                    if !('0' <= c && c <= '9') {
                        proof {
                            let d = if s@.len() > 0 && s@[0] == '+' {
                                s@.drop_first()
                            } else {
                                s@
                            };
                            assert(d[consumed.len() - start] == c);
                            assert(!all_digits(d));
                        }
                        return None;
                    }
                    any_digit = true;
                    let dv: u64 = ((c as u32) - 48) as u64;
                    if !overflow {
                        match value.checked_mul(10) {
                            Some(v) => match v.checked_add(dv) {
                                Some(w) => {
                                    value = w;
                                },
                                None => {
                                    overflow = true;
                                },
                            },
                            None => {
                                overflow = true;
                            },
                        }
                    }
                    proof {
                        let d1 = consumed.push(c).subrange(start, consumed.len() as int + 1);
                        assert(d1 =~= d0.push(c));
                        assert(d1.drop_last() =~= d0);
                        assert(digits_value(d1) == digits_value(d0) * 10 + digit_value(c));
                        consumed = consumed.push(c);
                    }
                }
            },
            None => {
                assert(consumed =~= s@);
                proof {
                    let d = if s@.len() > 0 && s@[0] == '+' {
                        s@.drop_first()
                    } else {
                        s@
                    };
                    assert(d =~= s@.subrange(start, s@.len() as int));
                }
                if first || overflow {
                    return None;
                }
                if !any_digit {
                    return None;
                }
                return Some(value);
            },
        }
    }
}

/// The characters an account id may hold: `a`-`z`, `0`-`9`, `-`, `_` and `.`.
pub open spec fn is_account_char(c: char) -> bool {
    (97 <= (c as int) <= 122) || is_digit(c) || is_account_separator(c)
}

/// The separators of an account id: `-`, `_` and `.`.
pub open spec fn is_account_separator(c: char) -> bool {
    c == '-' || c == '_' || c == '.'
}

/// A NEAR account id: 2 to 64 characters, each one of `a`-`z`, `0`-`9`, `-`, `_`, `.`, with no
/// separator first, last, or next to another separator.
pub open spec fn is_account_id(s: Seq<char>) -> bool {
    &&& 2 <= s.len() <= 64
    &&& forall|i: int| 0 <= i < s.len() ==> is_account_char(#[trigger] s[i])
    &&& !is_account_separator(s[0])
    &&& !is_account_separator(s[s.len() - 1])
    &&& forall|i: int, j: int|
        #![trigger s[i], s[j]]
        0 <= i && j == i + 1 && j < s.len() ==> !(is_account_separator(s[i])
            && is_account_separator(s[j]))
}

/// Parses an account id with `near_sdk::AccountId`'s `FromStr` (the validation of the
/// `near-account-id` crate); the contract claims that it accepts exactly the strings of
/// `is_account_id` and keeps them as they are.
#[verifier::external_body]
fn parse_account_id(s: &str) -> (r: Option<String>)
    ensures
        r is Some <==> is_account_id(s@),
        r matches Some(a) ==> a@ == s@,
{
    match s.parse::<near_sdk::AccountId>() {
        Ok(a) => Some(String::from(a)),
        Err(_) => None,
    }
}

/// Checks `s` as a NEAR account id and gives it back as an owned string.
pub fn account_id_from_str(s: &str) -> (r: Option<String>)
    ensures
        r is Some <==> is_account_id(s@),
        r matches Some(a) ==> a@ == s@,
{
    parse_account_id(s)
}

/// The staking message: the lock duration in decimal, a colon, and the staker's account id.
pub open spec fn lock_msg(duration: u64, owner: Seq<char>) -> Seq<char> {
    decimal(duration as nat) + seq![':'] + owner
}

/// Builds the staking message `"{duration}:{owner}"`.
pub fn format_lock_msg(duration: u64, owner: &str) -> (msg: String)
    ensures
        msg@ == lock_msg(duration, owner@),
{
    let mut m = String::new();
    push_decimal(&mut m, duration);
    push_char(&mut m, ':');
    push_str_chars(&mut m, owner);
    m
}

pub proof fn lemma_decimal(n: nat)
    ensures
        decimal(n).len() >= 1,
        all_digits(decimal(n)),
        digits_value(decimal(n)) == n,
    decreases n,
{
    if n < 10 {
        let d = decimal(n);
        assert(d.drop_last() =~= Seq::<char>::empty());
        assert(d.last() == digit_char(n));
        assert(digits_value(Seq::<char>::empty()) == 0);
        assert(digit_value(digit_char(n)) == n);
    } else {
        lemma_decimal(n / 10);
        let d = decimal(n);
        assert(d.drop_last() =~= decimal(n / 10));
        assert(d.last() == digit_char(n % 10));
        assert(digit_value(digit_char(n % 10)) == n % 10);
        assert(digits_value(d) == digits_value(decimal(n / 10)) * 10 + digit_value(d.last()));
        assert(n == (n / 10) * 10 + n % 10);
        assert forall|i: int| 0 <= i < d.len() implies is_digit(#[trigger] d[i]) by {
            if i < d.len() - 1 {
                assert(d[i] == decimal(n / 10)[i]);
            }
        }
    }
}

/// Reading back a decimal: parsing what `format_lock_msg` writes for a number gives it back.
pub proof fn lemma_parse_decimal(n: u64)
    ensures
        parse_u64_spec(decimal(n as nat)) == Some(n),
{
    lemma_decimal(n as nat);
}

proof fn lemma_split_no_sep(s: Seq<char>, sep: char)
    requires
        !s.contains(sep),
    ensures
        split_at_sep(s, sep) == seq![s],
    decreases s.len(),
{
    if s.len() == 0 {
        assert(s =~= Seq::<char>::empty());
        assert(split_at_sep(s, sep) =~= seq![s]);
    } else {
        let p = s.drop_last();
        assert(!p.contains(sep)) by {
            if p.contains(sep) {
                let i = choose|i: int| 0 <= i < p.len() && p[i] == sep;
                assert(s[i] == sep);
            }
        }
        lemma_split_no_sep(p, sep);
        assert(s.last() != sep) by {
            assert(s[s.len() - 1] == s.last());
        }
        assert(p.push(s.last()) =~= s);
        assert(s.drop_last() == p);
        let prev = split_at_sep(p, sep);
        assert(prev == seq![p]);
        assert(split_at_sep(s, sep) == prev.update(prev.len() - 1, prev.last().push(s.last())));
        let r = split_at_sep(s, sep);
        assert(r.len() == 1);
        assert(r[0] == p.push(s.last()));
        assert(r =~= seq![s]);
    }
}

proof fn lemma_split_after_sep(a: Seq<char>, b: Seq<char>, sep: char)
    requires
        !a.contains(sep),
        !b.contains(sep),
    ensures
        split_at_sep(a + seq![sep] + b, sep) == seq![a, b],
    decreases b.len(),
{
    if b.len() == 0 {
        lemma_split_no_sep(a, sep);
        let s = a + seq![sep] + b;
        assert(s.drop_last() =~= a);
        assert(b =~= Seq::<char>::empty());
        assert(s.last() == sep);
        let r = split_at_sep(s, sep);
        assert(r == seq![a].push(Seq::<char>::empty()));
        assert(r =~= seq![a, b]);
    } else {
        let bp = b.drop_last();
        assert(!bp.contains(sep)) by {
            if bp.contains(sep) {
                let i = choose|i: int| 0 <= i < bp.len() && bp[i] == sep;
                assert(b[i] == sep);
            }
        }
        lemma_split_after_sep(a, bp, sep);
        let s = a + seq![sep] + b;
        assert(s.drop_last() =~= a + seq![sep] + bp);
        assert(b.last() != sep) by {
            assert(b[b.len() - 1] == b.last());
        }
        assert(s.last() == b.last());
        assert(bp.push(b.last()) =~= b);
        let prev = split_at_sep(a + seq![sep] + bp, sep);
        assert(prev == seq![a, bp]);
        assert(split_at_sep(s, sep) == prev.update(prev.len() - 1, prev.last().push(s.last())));
        let r = split_at_sep(s, sep);
        assert(r.len() == 2);
        assert(r[0] == a);
        assert(r[1] == bp.push(b.last()));
        assert(r =~= seq![a, b]);
    }
}

/// The staking message splits at its one colon into the decimal duration and the owner,
/// and the duration reads back as the number that was written, whenever the owner holds no colon.
pub proof fn lemma_lock_msg_roundtrip(duration: u64, owner: Seq<char>)
    requires
        !owner.contains(':'),
    ensures
        split_at_sep(lock_msg(duration, owner), ':') == seq![decimal(duration as nat), owner],
        parse_u64_spec(decimal(duration as nat)) == Some(duration),
{
    lemma_decimal(duration as nat);
    let d = decimal(duration as nat);
    assert(!d.contains(':')) by {
        if d.contains(':') {
            let i = choose|i: int| 0 <= i < d.len() && d[i] == ':';
            assert(is_digit(d[i]));
        }
    }
    lemma_split_after_sep(d, owner, ':');
}

/// A string of account-id characters holds no colon.
pub proof fn lemma_account_chars_no_colon(s: Seq<char>)
    requires
        forall|i: int| 0 <= i < s.len() ==> is_account_char(#[trigger] s[i]),
    ensures
        !s.contains(':'),
{
    if s.contains(':') {
        let i = choose|i: int| 0 <= i < s.len() && s[i] == ':';
        assert(is_account_char(s[i]));
    }
}

} // verus!
