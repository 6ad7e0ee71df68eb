//! Small helpers between `&str` / `String` and sequences of characters.
use vstd::prelude::*;
use vstd::std_specs::iter::IteratorSpec;

verus! {

broadcast use vstd::string::next_postcondition;

/// Appends one character to a `String` (std `String::push`).
#[verifier::external_body]
pub fn push_char(s: &mut String, c: char)
    ensures
        final(s)@ == old(s)@.push(c),
{
    s.push(c);
}

/// The characters of `s`, in order.
pub fn chars_of(s: &str) -> (v: Vec<char>)
    ensures
        v@ == s@,
{
    let mut v: Vec<char> = Vec::new();
    proof {
        vstd::string::axiom_spec_iter(s);
    }
    for c in it: s.chars()
        invariant
            v@ == it.seq().take(it.index() as int),
            it.seq() == s@,
        ensures
            v@ == s@,
    {
        v.push(c);
    }
    v
}

/// Unicode `White_Space`, the set `char::is_whitespace` tests for.
pub open spec fn is_ws(c: char) -> bool {
    let u = c as u32;
    (9 <= u <= 13) || u == 32 || u == 0x85 || u == 0xA0 || u == 0x1680 || (0x2000 <= u <= 0x200A)
        || u == 0x2028 || u == 0x2029 || u == 0x202F || u == 0x205F || u == 0x3000
}

pub fn is_whitespace(c: char) -> (r: bool)
    ensures
        r == is_ws(c),
{
    let u = c as u32;
    (9 <= u && u <= 13) || u == 32 || u == 0x85 || u == 0xA0 || u == 0x1680 || (0x2000 <= u && u
        <= 0x200A) || u == 0x2028 || u == 0x2029 || u == 0x202F || u == 0x205F || u == 0x3000
}

/// The whitespace-separated fields of `s[i..]`, given the field `cur`
/// being read and the fields `acc` already complete.
pub open spec fn fields_from(s: Seq<char>, i: int, cur: Seq<char>, acc: Seq<Seq<char>>) -> Seq<Seq<char>>
    decreases s.len() - i,
{
    if i >= s.len() {
        if cur.len() > 0 {
            acc.push(cur)
        } else {
            acc
        }
    } else if is_ws(s[i]) {
        fields_from(s, i + 1, Seq::empty(), if cur.len() > 0 { acc.push(cur) } else { acc })
    } else {
        fields_from(s, i + 1, cur.push(s[i]), acc)
    }
}

/// The whitespace-separated fields of `s` (`str::split_whitespace`).
pub open spec fn fields(s: Seq<char>) -> Seq<Seq<char>> {
    fields_from(s, 0, Seq::empty(), Seq::empty())
}

/// The whitespace-separated fields of `s`, each non-empty.
pub fn split_fields(s: &Vec<char>) -> (r: Vec<Vec<char>>)
    ensures
        forall|i: int| 0 <= i < r.len() ==> (#[trigger] r@[i]).len() > 0,
        r@.map_values(|v: Vec<char>| v@) == fields(s@),
{
    let mut out: Vec<Vec<char>> = Vec::new();
    let mut cur: Vec<char> = Vec::new();
    let mut i: usize = 0;
    proof {
        assert(out@.map_values(|v: Vec<char>| v@) =~= Seq::<Seq<char>>::empty());
        assert(cur@ =~= Seq::<char>::empty());
    }
    while i < s.len()
        invariant
            i <= s.len(),
            forall|j: int| 0 <= j < out.len() ==> (#[trigger] out@[j]).len() > 0,
            fields_from(s@, i as int, cur@, out@.map_values(|v: Vec<char>| v@)) == fields(s@),
        decreases s.len() - i,
    {
        let c = s[i];
        let ghost prev = out@.map_values(|v: Vec<char>| v@);
        if is_whitespace(c) {
            if cur.len() > 0 {
                let ghost cv = cur@;
                out.push(cur);
                cur = Vec::new();
                proof {
                    assert(out@.map_values(|v: Vec<char>| v@) =~= prev.push(cv));
                }
            } else {
                proof {
                    assert(cur@ =~= Seq::<char>::empty());
                }
            }
        } else {
            cur.push(c);
        }
        i += 1;
    }
    if cur.len() > 0 {
        let ghost prev = out@.map_values(|v: Vec<char>| v@);
        let ghost cv = cur@;
        out.push(cur);
        proof {
            assert(out@.map_values(|v: Vec<char>| v@) =~= prev.push(cv));
        }
    }
    out
}

/// The pieces of `s` between occurrences of `sep`, empty pieces kept.
pub open spec fn split_parts(s: Seq<char>, sep: char) -> Seq<Seq<char>>
    decreases s.len(),
{
    if s.len() == 0 {
        seq![Seq::empty()]
    } else {
        let p = split_parts(s.drop_last(), sep);
        if s.last() == sep {
            p.push(Seq::empty())
        } else {
            p.update(p.len() - 1, p.last().push(s.last()))
        }
    }
}

proof fn lemma_split_parts_len(s: Seq<char>, sep: char)
    ensures
        split_parts(s, sep).len() >= 1,
    decreases s.len(),
{
    if s.len() > 0 {
        lemma_split_parts_len(s.drop_last(), sep);
    }
}

/// The pieces of `s` between occurrences of `sep` (empty pieces kept).
pub fn split_on(s: &Vec<char>, sep: char) -> (parts: Vec<Vec<char>>)
    ensures
        parts.len() >= 1,
        parts@.map_values(|v: Vec<char>| v@) == split_parts(s@, sep),
{
    let mut parts: Vec<Vec<char>> = Vec::new();
    let mut cur: Vec<char> = Vec::new();
    let mut i: usize = 0;
    while i < s.len()
        invariant
            i <= s.len(),
            parts@.map_values(|v: Vec<char>| v@).push(cur@) == split_parts(s@.take(i as int), sep),
        decreases s.len() - i,
    {
        let c = s[i];
        let ghost before = parts@.map_values(|v: Vec<char>| v@).push(cur@);
        proof {
            lemma_split_parts_len(s@.take(i as int), sep);
            assert(s@.take(i + 1).drop_last() =~= s@.take(i as int));
        }
        if c == sep {
            parts.push(cur);
            cur = Vec::new();
            proof {
                assert(parts@.map_values(|v: Vec<char>| v@).push(cur@) =~= before.push(Seq::empty()));
            }
        } else {
            cur.push(c);
            proof {
                assert(parts@.map_values(|v: Vec<char>| v@).push(cur@) =~= before.update(
                    before.len() - 1,
                    before.last().push(c),
                ));
            }
        }
        i += 1;
    }
    parts.push(cur);
    proof {
        assert(s@.take(s@.len() as int) =~= s@);
        assert(parts@.map_values(|v: Vec<char>| v@) =~= split_parts(s@, sep));
    }
    parts
}

/// What `str::parse` accepts for an unsigned integer bounded by `max`: an
/// optional `+`, then one or more decimal digits whose value is at most
/// `max`.
pub open spec fn uint_text(s: Seq<char>, max: nat) -> Option<nat> {
    let d = if s.len() > 0 && s[0] == '+' {
        s.drop_first()
    } else {
        s
    };
    if d.len() > 0 && all_digits(d) && digits_value(d) <= max {
        Some(digits_value(d) as nat)
    } else {
        None
    }
}

/// Parses a decimal unsigned integer of at most `max` the way
/// `str::parse` does for the unsigned type whose largest value is `max`.
pub fn parse_uint(s: &Vec<char>, max: u64) -> (r: Option<u64>)
    ensures
        r matches Some(v) ==> uint_text(s@, max as nat) == Some(v as nat) && v <= max,
        r is None ==> uint_text(s@, max as nat) is None,
{
    let start: usize = if s.len() > 0 && s[0] == '+' {
        1
    } else {
        0
    };
    let ghost d = if s@.len() > 0 && s@[0] == '+' {
        s@.drop_first()
    } else {
        s@
    };
    assert(d =~= s@.subrange(start as int, s@.len() as int));
    if start >= s.len() {
        return None;
    }
    let mut v: u128 = 0;
    let mut i: usize = start;
    while i < s.len()
        invariant
            start <= i <= s.len(),
            d =~= s@.subrange(start as int, s@.len() as int),
            d.len() > 0,
            uint_text(s@, max as nat) == if all_digits(d) && digits_value(d) <= max {
                Some(digits_value(d) as nat)
            } else {
                None
            },
            all_digits(s@.subrange(start as int, i as int)),
            v == digits_value(s@.subrange(start as int, i as int)),
            v <= max,
        decreases s.len() - i,
    {
        let c = s[i];
        proof {
            assert(s@.subrange(start as int, i + 1).drop_last() =~= s@.subrange(
                start as int,
                i as int,
            ));
        }
        if !('0' <= c && c <= '9') {
            proof {
                assert(d[i - start] == c);
                assert(!all_digits(d));
            }
            return None;
        }
        let nv = v * 10 + (c as u32 - '0' as u32) as u128;
        if nv > max as u128 {
            proof {
                let p = s@.subrange(start as int, i + 1);
                assert forall|j: int| 0 <= j < p.len() implies '0' <= #[trigger] p[j] <= '9' by {
                    if j < i - start {
                        assert(p[j] == s@.subrange(start as int, i as int)[j]);
                    }
                }
                assert(d.subrange(0, i + 1 - start) =~= p);
                assert(digits_value(p) == nv);
                lemma_digits_prefix_bound(d, i + 1 - start);
                assert(!all_digits(d) || digits_value(d) > max);
            }
            return None;
        }
        v = nv;
        i += 1;
        proof {
            let p = s@.subrange(start as int, i as int);
            assert forall|j: int| 0 <= j < p.len() implies '0' <= #[trigger] p[j] <= '9' by {
                if j < i - 1 - start {
                    assert(p[j] == s@.subrange(start as int, i - 1)[j]);
                }
            }
        }
    }
    proof {
        assert(s@.subrange(start as int, s@.len() as int) =~= d);
        lemma_digits_value_nonneg(d);
    }
    Some(v as u64)
}

/// `s` without leading whitespace.
pub open spec fn trim_start(s: Seq<char>) -> Seq<char>
    decreases s.len(),
{
    if s.len() > 0 && is_ws(s[0]) {
        trim_start(s.drop_first())
    } else {
        s
    }
}

/// `s` without trailing whitespace.
pub open spec fn trim_end(s: Seq<char>) -> Seq<char>
    decreases s.len(),
{
    if s.len() > 0 && is_ws(s.last()) {
        trim_end(s.drop_last())
    } else {
        s
    }
}

/// `s` without leading and trailing whitespace (`str::trim`).
pub open spec fn trim(s: Seq<char>) -> Seq<char> {
    trim_end(trim_start(s))
}

proof fn lemma_trim_start_at(s: Seq<char>, i: int)
    requires
        0 <= i <= s.len(),
        forall|j: int| 0 <= j < i ==> is_ws(#[trigger] s[j]),
    ensures
        trim_start(s) == trim_start(s.subrange(i, s.len() as int)),
    decreases i,
{
    if i > 0 {
        assert(s.drop_first().subrange(i - 1, s.drop_first().len() as int) =~= s.subrange(i, s.len() as int));
        assert forall|j: int| 0 <= j < i - 1 implies is_ws(#[trigger] s.drop_first()[j]) by {
            assert(s.drop_first()[j] == s[j + 1]);
        }
        lemma_trim_start_at(s.drop_first(), i - 1);
    } else {
        assert(s.subrange(0, s.len() as int) =~= s);
    }
}

proof fn lemma_trim_end_at(s: Seq<char>, e: int)
    requires
        0 <= e <= s.len(),
        forall|j: int| e <= j < s.len() ==> is_ws(#[trigger] s[j]),
    ensures
        trim_end(s) == trim_end(s.subrange(0, e)),
    decreases s.len() - e,
{
    if e < s.len() {
        assert(s.drop_last().subrange(0, e) =~= s.subrange(0, e));
        lemma_trim_end_at(s.drop_last(), e);
    } else {
        assert(s.subrange(0, e) =~= s);
    }
}

/// `s` without leading and trailing whitespace.
pub fn trimmed(s: &Vec<char>) -> (r: Vec<char>)
    ensures
        r@ == trim(s@),
{
    let mut a: usize = 0;
    while a < s.len() && is_whitespace(s[a])
        invariant
            a <= s@.len(),
            forall|j: int| 0 <= j < a ==> is_ws(#[trigger] s@[j]),
        decreases s@.len() - a,
    {
        a += 1;
    }
    let ghost t = s@.subrange(a as int, s@.len() as int);
    proof {
        lemma_trim_start_at(s@, a as int);
        if a < s@.len() {
            assert(t[0] == s@[a as int]);
        }
        assert(trim_start(t) == t);
    }
    let mut e: usize = s.len();
    while e > a && is_whitespace(s[e - 1])
        invariant
            a <= e <= s@.len(),
            forall|j: int| e <= j < s@.len() ==> is_ws(#[trigger] s@[j]),
        decreases e,
    {
        e -= 1;
    }
    let mut r: Vec<char> = Vec::new();
    let mut k: usize = a;
    while k < e
        invariant
            a <= k <= e,
            e <= s@.len(),
            r@ =~= s@.subrange(a as int, k as int),
        decreases e - k,
    {
        r.push(s[k]);
        k += 1;
    }
    proof {
        assert forall|j: int| e - a <= j < t.len() implies is_ws(#[trigger] t[j]) by {
            assert(t[j] == s@[j + a]);
        }
        lemma_trim_end_at(t, e - a);
        assert(t.subrange(0, e - a) =~= r@);
        if e > a {
            assert(r@.last() == s@[e - 1]);
        }
        assert(trim_end(r@) == r@);
    }
    r
}

/// A copy of `v`.
pub fn copy_chars(v: &Vec<char>) -> (r: Vec<char>)
    ensures
        r@ == v@,
{
    let mut r: Vec<char> = Vec::new();
    let mut i: usize = 0;
    while i < v.len()
        invariant
            i <= v@.len(),
            r@ =~= v@.take(i as int),
        decreases v@.len() - i,
    {
        r.push(v[i]);
        i += 1;
    }
    proof {
        assert(v@.take(v@.len() as int) =~= v@);
    }
    r
}

/// Whether `v` holds exactly the characters of `lit`.
pub fn equals(v: &Vec<char>, lit: &str) -> (r: bool)
    ensures
        r == (v@ == lit@),
{
    let l = chars_of(lit);
    if v.len() != l.len() {
        return false;
    }
    let mut i: usize = 0;
    while i < v.len()
        invariant
            i <= v@.len(),
            v@.len() == l@.len(),
            l@ == lit@,
            forall|k: int| 0 <= k < i ==> v@[k] == l@[k],
        decreases v@.len() - i,
    {
        if v[i] != l[i] {
            return false;
        }
        i += 1;
    }
    proof {
        assert(v@ =~= l@);
    }
    true
}

/// What `str::parse::<i32>` accepts: an optional sign, then one or more
/// decimal digits whose value fits in an `i32`.
pub open spec fn i32_text(s: Seq<char>) -> Option<int> {
    if s.len() > 0 && s[0] == '-' {
        let d = s.drop_first();
        if d.len() > 0 && all_digits(d) && digits_value(d) <= 0x8000_0000 {
            Some(-digits_value(d))
        } else {
            None
        }
    } else {
        match uint_text(s, 0x7FFF_FFFF) {
            Some(v) => Some(v as int),
            None => None,
        }
    }
}

/// Parses a decimal `i32` the way `str::parse::<i32>` does.
pub fn parse_i32(s: &Vec<char>) -> (r: Option<i32>)
    ensures
        r matches Some(v) ==> i32_text(s@) == Some(v as int),
        r is None <==> i32_text(s@) is None,
{
    if s.len() > 0 && s[0] == '-' {
        let mut d: Vec<char> = Vec::new();
        let mut i: usize = 1;
        while i < s.len()
            invariant
                1 <= i <= s@.len(),
                d@ =~= s@.subrange(1, i as int),
            decreases s@.len() - i,
        {
            d.push(s[i]);
            i += 1;
        }
        proof {
            assert(d@ =~= s@.drop_first());
        }
        if d.len() == 0 || d[0] == '+' {
            proof {
                if d@.len() > 0 {
                    assert(!('0' <= d@[0] <= '9'));
                }
            }
            return None;
        }
        match parse_uint(&d, 0x8000_0000) {
            Some(v) => {
                proof {
                    lemma_digits_value_nonneg(d@);
                }
                Some((0 - v as i64) as i32)
            },
            None => None,
        }
    } else {
        match parse_uint(s, 0x7FFF_FFFF) {
            Some(v) => Some(v as i32),
            None => None,
        }
    }
}

/// Value of a string of decimal digits.
pub open spec fn digits_value(s: Seq<char>) -> int
    decreases s.len(),
{
    if s.len() == 0 {
        0
    } else {
        digits_value(s.drop_last()) * 10 + (s.last() as int - '0' as int)
    }
}

pub open spec fn all_digits(s: Seq<char>) -> bool {
    forall|i: int| 0 <= i < s.len() ==> '0' <= #[trigger] s[i] <= '9'
}

/// What `u16::from_str` accepts: an optional `+`, then one or more decimal
/// digits whose value fits in a `u16`.
pub open spec fn u16_text(s: Seq<char>) -> Option<u16> {
    let d = if s.len() > 0 && s[0] == '+' {
        s.drop_first()
    } else {
        s
    };
    if d.len() > 0 && all_digits(d) && digits_value(d) <= 0xFFFF {
        Some(digits_value(d) as u16)
    } else {
        None
    }
}

proof fn lemma_digits_value_nonneg(s: Seq<char>)
    requires
        all_digits(s),
    ensures
        digits_value(s) >= 0,
    decreases s.len(),
{
    if s.len() > 0 {
        lemma_digits_value_nonneg(s.drop_last());
    }
}

/// Parses a decimal `u16` the way `str::parse::<u16>` does.
pub fn parse_u16(s: &Vec<char>) -> (r: Option<u16>)
    ensures
        r == u16_text(s@),
{
    let start: usize = if s.len() > 0 && s[0] == '+' {
        1
    } else {
        0
    };
    let ghost d = if s@.len() > 0 && s@[0] == '+' {
        s@.drop_first()
    } else {
        s@
    };
    assert(d =~= s@.subrange(start as int, s@.len() as int));
    assert(u16_text(s@) == if d.len() > 0 && all_digits(d) && digits_value(d) <= 0xFFFF {
        Some(digits_value(d) as u16)
    } else {
        None
    });
    if start >= s.len() {
        return None;
    }
    let mut v: u32 = 0;
    let mut i: usize = start;
    while i < s.len()
        invariant
            start <= i <= s.len(),
            d =~= s@.subrange(start as int, s@.len() as int),
            d.len() > 0,
            u16_text(s@) == if all_digits(d) && digits_value(d) <= 0xFFFF {
                Some(digits_value(d) as u16)
            } else {
                None
            },
            all_digits(s@.subrange(start as int, i as int)),
            v == digits_value(s@.subrange(start as int, i as int)),
            v <= 0xFFFF,
        decreases s.len() - i,
    {
        let c = s[i];
        proof {
            assert(s@.subrange(start as int, i + 1).drop_last() =~= s@.subrange(
                start as int,
                i as int,
            ));
        }
        if !('0' <= c && c <= '9') {
            proof {
                assert(d[i - start] == c);
                assert(!all_digits(d));
            }
            return None;
        }
        let nv = v * 10 + (c as u32 - '0' as u32);
        if nv > 0xFFFF {
            proof {
                let p = s@.subrange(start as int, i + 1);
                assert forall|j: int| 0 <= j < p.len() implies '0' <= #[trigger] p[j] <= '9' by {
                    if j < i - start {
                        assert(p[j] == s@.subrange(start as int, i as int)[j]);
                    }
                }
                assert(d.subrange(0, i + 1 - start) =~= p);
                assert(digits_value(p) == nv);
                lemma_digits_prefix_bound(d, i + 1 - start);
                assert(!all_digits(d) || digits_value(d) > 0xFFFF);
            }
            return None;
        }
        v = nv;
        i += 1;
        proof {
            let p = s@.subrange(start as int, i as int);
            assert forall|j: int| 0 <= j < p.len() implies '0' <= #[trigger] p[j] <= '9' by {
                if j < i - 1 - start {
                    assert(p[j] == s@.subrange(start as int, i - 1)[j]);
                }
            }
        }
    }
    proof {
        assert(s@.subrange(start as int, s@.len() as int) =~= d);
    }
    Some(v as u16)
}

/// The value of a digit string is at least that of any of its prefixes.
proof fn lemma_digits_prefix_bound(d: Seq<char>, k: int)
    requires
        0 < k <= d.len(),
        all_digits(d.subrange(0, k)),
    ensures
        all_digits(d) ==> digits_value(d) >= digits_value(d.subrange(0, k)),
    decreases d.len(),
{
    if all_digits(d) && d.len() > k {
        assert(d.drop_last().subrange(0, k) =~= d.subrange(0, k));
        lemma_digits_prefix_bound(d.drop_last(), k);
        lemma_digits_value_nonneg(d.drop_last());
        assert(all_digits(d.drop_last()));
    } else if all_digits(d) {
        assert(d.subrange(0, k) =~= d);
    }
}

/// Decimal digits of `n`, most significant first.
pub open spec fn decimal_text(n: nat) -> Seq<char>
    decreases n,
{
    if n < 10 {
        seq![((n + 48) as u8) as char]
    } else {
        decimal_text(n / 10).push((((n % 10) + 48) as u8) as char)
    }
}

/// Appends the decimal form of `v` to `s`.
pub fn push_decimal(s: &mut String, v: u32)
    ensures
        final(s)@ == old(s)@ + decimal_text(v as nat),
    decreases v,
{
    if v >= 10 {
        push_decimal(s, v / 10);
    }
    push_char(s, ((v % 10) as u8 + 48u8) as char);
    proof {
        if v < 10 {
            assert(s@ =~= old(s)@ + decimal_text(v as nat));
        } else {
            assert(s@ =~= old(s)@ + decimal_text(v as nat));
        }
    }
}

/// The string holds exactly the characters `chars`.
pub fn same_text(s: &String, chars: &Vec<char>) -> (r: bool)
    ensures
        r == (s@ == chars@),
{
    let v = chars_of(s.as_str());
    if v.len() != chars.len() {
        return false;
    }
    let mut i: usize = 0;
    while i < v.len()
        invariant
            i <= v.len(),
            v.len() == chars.len(),
            v@ == s@,
            forall|j: int| 0 <= j < i ==> v@[j] == chars@[j],
        decreases v.len() - i,
    {
        if v[i] != chars[i] {
            return false;
        }
        i += 1;
    }
    proof {
        assert(v@ =~= chars@);
    }
    true
}

} // verus!
