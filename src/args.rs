//! The textual forms of a resize request: target dimensions written `WIDTHxHEIGHT`, and the
//! list of carving steps at which to emit a debug image.
use vstd::prelude::*;
use vstd::string::{StrSliceExecFns, StringExecFns};

verus! {

/// The message for a malformed `WIDTHxHEIGHT` argument.
pub const DIM_FORM_ERR: &'static str = "Argument must take the form `WIDTHxHEIGHT`. See help for more details.";

/// The message for a malformed emission argument.
pub const EMIT_FORM_ERR: &'static str = "Argument must take the form `path/to/image.png` or `path/to/image.png:1,2,3`. See help for more details.";

/// One component of a requested size: an absolute value, or an offset from the source's own
/// value (`P` alone is an offset of zero).
#[derive(Debug, Clone, Copy, PartialEq, Eq)]
pub struct DimComp {
    pub is_rel: bool,
    pub val: i32,
}

pub open spec fn is_digit(c: char) -> bool {
    '0' <= c <= '9'
}

pub open spec fn digit_of(c: char) -> int {
    c as int - '0' as int
}

/// The number written by the decimal digits `s`.
pub open spec fn digits_value(s: Seq<char>) -> int
    decreases s.len(),
{
    if s.len() == 0 {
        0
    } else {
        digits_value(s.drop_last()) * 10 + digit_of(s.last())
    }
}

pub open spec fn all_digits(s: Seq<char>) -> bool {
    forall|i: int| 0 <= i < s.len() ==> is_digit(#[trigger] s[i])
}

/// The integer that `s` writes in decimal, with an optional leading `+` or `-` and at least one
/// digit, if there is one within `lo..=hi`.
pub open spec fn decimal_in(s: Seq<char>, lo: int, hi: int) -> Option<int> {
    let signed = s.len() > 0 && (s[0] == '-' || s[0] == '+');
    let body = if signed {
        s.drop_first()
    } else {
        s
    };
    let v = if s.len() > 0 && s[0] == '-' {
        -digits_value(body)
    } else {
        digits_value(body)
    };
    if body.len() > 0 && all_digits(body) && lo <= v <= hi {
        Some(v)
    } else {
        None
    }
}

/// Digits never decrease the value as more are appended.
proof fn lemma_digits_grow(s: Seq<char>, k: int)
    requires
        0 <= k <= s.len(),
        all_digits(s),
    ensures
        0 <= digits_value(s.take(k)) <= digits_value(s),
    decreases s.len() - k,
{
    if k < s.len() {
        lemma_digits_grow(s, k + 1);
        assert(s.take(k + 1).drop_last() =~= s.take(k));
        assert(is_digit(s[k]));
    } else {
        assert(s.take(k) =~= s);
        lemma_digits_nonneg(s);
    }
}

proof fn lemma_digits_nonneg(s: Seq<char>)
    requires
        all_digits(s),
    ensures
        digits_value(s) >= 0,
    decreases s.len(),
{
    if s.len() > 0 {
        assert(all_digits(s.drop_last()));
        lemma_digits_nonneg(s.drop_last());
        assert(is_digit(s[s.len() - 1]));
    }
}

/// Reads a decimal integer in `lo..=hi` (with `-1_000_000_000_000 <= lo`, `hi <=
/// 1_000_000_000_000`) written with an optional sign and at least one digit, and nothing else.
fn parse_decimal(s: &str, lo: i64, hi: i64) -> (r: Option<i64>)
    requires
        -1_000_000_000_000 <= lo,
        hi <= 1_000_000_000_000,
    ensures
        r matches Some(v) ==> decimal_in(s@, lo as int, hi as int) == Some(v as int),
        r is None ==> decimal_in(s@, lo as int, hi as int) is None,
{
    let n = s.unicode_len();
    let mut start: usize = 0;
    let mut neg = false;
    if n > 0 {
        let c = s.get_char(0);
        if c == '-' {
            neg = true;
            start = 1;
        } else if c == '+' {
            start = 1;
        }
    }
    if start >= n {
        return None;
    }
    let ghost body = if start == 1 {
        s@.drop_first()
    } else {
        s@
    };
    assert(body =~= s@.subrange(start as int, n as int));
    assert(body == (if s@.len() > 0 && (s@[0] == '-' || s@[0] == '+') {
        s@.drop_first()
    } else {
        s@
    }));
    assert(neg == (s@.len() > 0 && s@[0] == '-'));
    let mut acc: i64 = 0;
    let mut i: usize = start;
    while i < n
        invariant
            n == s@.len(),
            start <= i <= n,
            start < n,
            body =~= s@.subrange(start as int, n as int),
            body == (if s@.len() > 0 && (s@[0] == '-' || s@[0] == '+') {
                s@.drop_first()
            } else {
                s@
            }),
            neg == (s@.len() > 0 && s@[0] == '-'),
            -1_000_000_000_000 <= lo,
            hi <= 1_000_000_000_000,
            all_digits(body.take(i - start)),
            acc == digits_value(body.take(i - start)),
            0 <= acc <= 1_000_000_000_000,
        decreases n - i,
    {
        let c = s.get_char(i);
        if !(c >= '0' && c <= '9') {
            proof {
                assert(body[i - start] == c);
                assert(!is_digit(body[i - start]));
                assert(!all_digits(body));
            }
            return None;
        }
        let d = (c as u32 - '0' as u32) as i64;
        let ghost prev = body.take(i - start);
        acc = acc * 10 + d;
        proof {
            let next = body.take(i + 1 - start);
            assert(next.drop_last() =~= prev);
            assert(next.last() == c);
            assert forall|j: int| 0 <= j < next.len() implies is_digit(#[trigger] next[j]) by {
                if j < prev.len() {
                    assert(next[j] == prev[j]);
                }
            }
        }
        if acc > 1_000_000_000_000 {
            proof {
                if all_digits(body) {
                    lemma_digits_grow(body, i + 1 - start);
                }
            }
            return None;
        }
        i = i + 1;
    }
    assert(body.take(n - start) =~= body);
    let v = if neg {
        -acc
    } else {
        acc
    };
    if lo <= v && v <= hi {
        Some(v)
    } else {
        None
    }
}

/// What one component of a `WIDTHxHEIGHT` argument means, if it is well formed: `P` or `p`
/// alone keeps the source value, a leading `?` makes the number an offset from it, and otherwise
/// the number is the value itself.
pub open spec fn comp_spec(c: Seq<char>) -> Option<DimComp> {
    if c.len() == 0 {
        None
    } else if c[0] == 'p' || c[0] == 'P' {
        if c.len() == 1 {
            Some(DimComp { is_rel: true, val: 0 })
        } else {
            None
        }
    } else if c[0] == '?' {
        match decimal_in(c.drop_first(), i32::MIN as int, i32::MAX as int) {
            Some(v) => Some(DimComp { is_rel: true, val: v as i32 }),
            None => None,
        }
    } else {
        match decimal_in(c, i32::MIN as int, i32::MAX as int) {
            Some(v) => Some(DimComp { is_rel: false, val: v as i32 }),
            None => None,
        }
    }
}

/// `a[k]` is the one `sep` of `a`.
pub open spec fn only_sep_at(a: Seq<char>, sep: char, k: int) -> bool {
    &&& 0 <= k < a.len()
    &&& a[k] == sep
    &&& forall|j: int| 0 <= j < a.len() && j != k ==> #[trigger] a[j] != sep
}

/// Reads one component of a `WIDTHxHEIGHT` argument.
pub fn parse_comp(comp: &str) -> (r: Result<DimComp, String>)
    ensures
        r is Ok <==> comp_spec(comp@) is Some,
        r is Ok ==> comp_spec(comp@) == Some(r->Ok_0),
        r is Err ==> r->Err_0@ == DIM_FORM_ERR@,
{
    let n = comp.unicode_len();
    if n == 0 {
        return Err(String::from_str(DIM_FORM_ERR));
    }
    let first = comp.get_char(0);
    if first == 'p' || first == 'P' {
        if n == 1 {
            return Ok(DimComp { is_rel: true, val: 0 });
        } else {
            return Err(String::from_str(DIM_FORM_ERR));
        }
    }
    let is_rel = first == '?';
    let digits = if is_rel {
        comp.substring_char(1, n)
    } else {
        comp.substring_char(0, n)
    };
    proof {
        if is_rel {
            assert(digits@ =~= comp@.drop_first());
        } else {
            assert(digits@ =~= comp@);
        }
    }
    match parse_decimal(digits, -2147483648, 2147483647) {
        Some(v) => Ok(DimComp { is_rel, val: v as i32 }),
        None => Err(String::from_str(DIM_FORM_ERR)),
    }
}

/// Reads a `WIDTHxHEIGHT` argument: exactly one `x`, with a well-formed component on each side.
pub fn parse_dim(arg: &str) -> (r: Result<(DimComp, DimComp), String>)
    ensures
        r is Ok <==> exists|k: int|
            only_sep_at(arg@, 'x', k) && comp_spec(arg@.take(k)) is Some && comp_spec(
                arg@.skip(k + 1),
            ) is Some,
        r is Ok ==> exists|k: int|
            only_sep_at(arg@, 'x', k) && comp_spec(arg@.take(k)) == Some(r->Ok_0.0) && comp_spec(
                arg@.skip(k + 1),
            ) == Some(r->Ok_0.1),
        r is Err ==> r->Err_0@ == DIM_FORM_ERR@,
{
    let n = arg.unicode_len();
    let mut count: usize = 0;
    let mut at: usize = 0;
    let mut i: usize = 0;
    while i < n
        invariant
            n == arg@.len(),
            i <= n,
            count <= i,
            count == 0 ==> forall|j: int| 0 <= j < i ==> #[trigger] arg@[j] != 'x',
            count == 1 ==> at < i && arg@[at as int] == 'x' && forall|j: int|
                0 <= j < i && j != at ==> #[trigger] arg@[j] != 'x',
            count >= 2 ==> exists|j1: int, j2: int|
                0 <= j1 < j2 < i && #[trigger] arg@[j1] == 'x' && #[trigger] arg@[j2] == 'x',
        decreases n - i,
    {
        if arg.get_char(i) == 'x' {
            if count == 0 {
                at = i;
            }
            proof {
                if count == 1 {
                    assert(arg@[at as int] == 'x' && arg@[i as int] == 'x');
                }
            }
            if count < 2 {
                count = count + 1;
            }
        }
        i = i + 1;
    }
    if count != 1 {
        proof {
            assert forall|k: int| !only_sep_at(arg@, 'x', k) by {
                if count >= 2 {
                    let (j1, j2) = choose|j1: int, j2: int|
                        0 <= j1 < j2 < n && #[trigger] arg@[j1] == 'x' && #[trigger] arg@[j2] == 'x';
                    if only_sep_at(arg@, 'x', k) {
                        assert(arg@[j1] != 'x' || arg@[j2] != 'x');
                    }
                }
            }
        }
        return Err(String::from_str(DIM_FORM_ERR));
    }
    let left = arg.substring_char(0, at);
    let right = arg.substring_char(at + 1, n);
    proof {
        assert(only_sep_at(arg@, 'x', at as int));
        assert(left@ =~= arg@.take(at as int));
        assert(right@ =~= arg@.skip(at + 1));
        assert forall|k: int| only_sep_at(arg@, 'x', k) implies k == at by {}
    }
    let l = match parse_comp(left) {
        Ok(c) => c,
        Err(e) => return Err(e),
    };
    let r = match parse_comp(right) {
        Ok(c) => c,
        Err(e) => return Err(e),
    };
    Ok((l, r))
}

/// The value a component asks for, given the source's own value.
pub fn resolve_dim(comp: DimComp, from: u32) -> (r: i64)
    ensures
        r == (if comp.is_rel {
            from as int + comp.val as int
        } else {
            comp.val as int
        }),
{
    if comp.is_rel {
        from as i64 + comp.val as i64
    } else {
        comp.val as i64
    }
}

/// `s` cut at every `sep`: one piece more than there are separators.
pub open spec fn split_spec(s: Seq<char>, sep: char) -> Seq<Seq<char>>
    decreases s.len(),
{
    if s.len() == 0 {
        seq![Seq::empty()]
    } else {
        let p = split_spec(s.drop_last(), sep);
        if s.last() == sep {
            p.push(Seq::empty())
        } else {
            p.update(p.len() - 1, p.last().push(s.last()))
        }
    }
}

/// The `u32` that `s` writes in decimal, with an optional leading `+`, if there is one.
pub open spec fn u32_spec(s: Seq<char>) -> Option<int> {
    if s.len() > 0 && s[0] == '-' {
        None
    } else {
        decimal_in(s, 0, u32::MAX as int)
    }
}

proof fn lemma_split_nonempty(s: Seq<char>, sep: char)
    ensures
        split_spec(s, sep).len() >= 1,
    decreases s.len(),
{
    if s.len() > 0 {
        lemma_split_nonempty(s.drop_last(), sep);
    }
}

/// Reading on past position `i` only lengthens the last piece or adds pieces after it.
proof fn lemma_split_prefix(s: Seq<char>, sep: char, i: int, j: int)
    requires
        0 <= i <= j <= s.len(),
    ensures
        split_spec(s.take(j), sep).len() >= split_spec(s.take(i), sep).len(),
        forall|k: int|
            0 <= k < split_spec(s.take(i), sep).len() - 1 ==> #[trigger] split_spec(s.take(j), sep)[k]
                == split_spec(s.take(i), sep)[k],
    decreases j - i,
{
    if j > i {
        lemma_split_prefix(s, sep, i, j - 1);
        assert(s.take(j).drop_last() =~= s.take(j - 1));
        lemma_split_nonempty(s.take(j - 1), sep);
    }
}

/// Reads a comma-separated list of `u32`s.
pub fn parse_emit_list(list: &str) -> (r: Result<Vec<u32>, String>)
    ensures
        r is Ok <==> forall|k: int|
            0 <= k < split_spec(list@, ',').len() ==> #[trigger] u32_spec(split_spec(list@, ',')[k]) is Some,
        r is Ok ==> r->Ok_0@.len() == split_spec(list@, ',').len() && forall|k: int|
            0 <= k < r->Ok_0@.len() ==> u32_spec(split_spec(list@, ',')[k]) == Some(
                #[trigger] r->Ok_0@[k] as int,
            ),
        r is Err ==> r->Err_0@ == EMIT_FORM_ERR@,
{
    let n = list.unicode_len();
    let mut out: Vec<u32> = Vec::new();
    let ghost mut done: Seq<Seq<char>> = Seq::empty();
    let mut start: usize = 0;
    let mut i: usize = 0;
    assert(list@.take(0) =~= Seq::<char>::empty());
    assert(split_spec(list@.take(0), ',') =~= done + seq![list@.subrange(0, 0)]);
    loop
        invariant
            n == list@.len(),
            start <= i <= n,
            split_spec(list@.take(i as int), ',') == done + seq![list@.subrange(start as int, i as int)],
            out@.len() == done.len(),
            forall|k: int| 0 <= k < done.len() ==> u32_spec(done[k]) == Some(#[trigger] out@[k] as int),
        decreases n - i,
    {
        if i == n || list.get_char(i) == ',' {
            let piece = list.substring_char(start, i);
            let parsed = if i > start && piece.get_char(0) == '-' {
                None
            } else {
                parse_decimal(piece, 0, 4294967295)
            };
            proof {
                if !(i > start) {
                    assert(piece@.len() == 0);
                }
            }
            match parsed {
                Some(v) => {
                    out.push(v as u32);
                },
                None => {
                    proof {
                        assert(list@.take(n as int) =~= list@);
                        let k = done.len() as int;
                        if i < n {
                            let after = list@.take(i + 1);
                            assert(after.drop_last() =~= list@.take(i as int));
                            assert(after.last() == ',');
                            assert(split_spec(after, ',')[k] == piece@);
                            lemma_split_prefix(list@, ',', i + 1, n as int);
                        }
                        assert(split_spec(list@, ',')[k] == piece@);
                        assert(u32_spec(split_spec(list@, ',')[k]) is None);
                    }
                    return Err(String::from_str(EMIT_FORM_ERR));
                },
            }
            if i == n {
                proof {
                    assert(list@.take(n as int) =~= list@);
                    let all = done + seq![piece@];
                    assert(split_spec(list@, ',') == all);
                    assert forall|k: int| 0 <= k < all.len() implies u32_spec(all[k]) == Some(
                        #[trigger] out@[k] as int,
                    ) by {
                        if k < done.len() {
                            assert(all[k] == done[k]);
                        }
                    }
                    assert forall|k: int| 0 <= k < split_spec(list@, ',').len() implies #[trigger] u32_spec(
                        split_spec(list@, ',')[k],
                    ) is Some by {
                        assert(u32_spec(all[k]) == Some(out@[k] as int));
                    }
                }
                return Ok(out);
            }
            proof {
                let before = list@.take(i as int);
                let after = list@.take(i + 1);
                assert(after.drop_last() =~= before);
                assert(after.last() == ',');
                assert(split_spec(before, ',') == done + seq![piece@]);
                done = done.push(piece@);
                assert(list@.subrange(i + 1, i + 1) =~= Seq::<char>::empty());
                assert(split_spec(after, ',') =~= done + seq![list@.subrange(i + 1, i + 1)]);
            }
            start = i + 1;
        } else {
            proof {
                let before = list@.take(i as int);
                let after = list@.take(i + 1);
                assert(after.drop_last() =~= before);
                assert(after.last() == list@[i as int]);
                assert(list@.subrange(start as int, i as int).push(list@[i as int]) =~= list@.subrange(
                    start as int,
                    i + 1,
                ));
                assert(split_spec(after, ',') =~= done + seq![list@.subrange(start as int, i + 1)]);
            }
        }
        i = i + 1;
    }
}

/// Reads an emission argument `path` or `path:1,2,3`: the path, and the carving steps at which
/// to emit (step 0 alone where no list is given). The path itself is not checked here.
pub fn parse_debug_view_targets(arg: &str) -> (r: Result<(String, Vec<u32>), String>)
    ensures
        (forall|j: int| 0 <= j < arg@.len() ==> #[trigger] arg@[j] != ':') ==> r is Ok && r->Ok_0.0@
            == arg@ && r->Ok_0.1@ == seq![0u32],
        forall|k: int|
            #[trigger] only_sep_at(arg@, ':', k) ==> (r is Ok <==> forall|m: int|
                0 <= m < split_spec(arg@.skip(k + 1), ',').len() ==> #[trigger] u32_spec(
                    split_spec(arg@.skip(k + 1), ',')[m],
                ) is Some) && (r is Ok ==> r->Ok_0.0@ == arg@.take(k) && r->Ok_0.1@.len()
                == split_spec(arg@.skip(k + 1), ',').len() && forall|m: int|
                0 <= m < r->Ok_0.1@.len() ==> u32_spec(split_spec(arg@.skip(k + 1), ',')[m]) == Some(
                    #[trigger] r->Ok_0.1@[m] as int,
                )),
        (exists|j1: int, j2: int|
            0 <= j1 < j2 < arg@.len() && #[trigger] arg@[j1] == ':' && #[trigger] arg@[j2] == ':')
            ==> r is Err,
        r is Err ==> r->Err_0@ == EMIT_FORM_ERR@,
{
    let n = arg.unicode_len();
    let mut count: usize = 0;
    let mut at: usize = 0;
    let mut i: usize = 0;
    while i < n
        invariant
            n == arg@.len(),
            i <= n,
            count <= i,
            count == 0 ==> forall|j: int| 0 <= j < i ==> #[trigger] arg@[j] != ':',
            count == 1 ==> at < i && arg@[at as int] == ':' && forall|j: int|
                0 <= j < i && j != at ==> #[trigger] arg@[j] != ':',
            count >= 2 ==> exists|j1: int, j2: int|
                0 <= j1 < j2 < i && #[trigger] arg@[j1] == ':' && #[trigger] arg@[j2] == ':',
        decreases n - i,
    {
        if arg.get_char(i) == ':' {
            if count == 0 {
                at = i;
            }
            proof {
                if count == 1 {
                    assert(arg@[at as int] == ':' && arg@[i as int] == ':');
                }
            }
            if count < 2 {
                count = count + 1;
            }
        }
        i = i + 1;
    }
    proof {
        assert forall|j1: int, j2: int|
            0 <= j1 < j2 < arg@.len() && #[trigger] arg@[j1] == ':' && #[trigger] arg@[j2]
                == ':' implies count >= 2 by {}
    }
    if count == 0 {
        let mut steps: Vec<u32> = Vec::new();
        steps.push(0);
        proof {
            assert(steps@ =~= seq![0u32]);
            assert forall|k: int| !#[trigger] only_sep_at(arg@, ':', k) by {}
        }
        return Ok((String::from_str(arg), steps));
    }
    if count >= 2 {
        proof {
            let (j1, j2) = choose|j1: int, j2: int|
                0 <= j1 < j2 < n && #[trigger] arg@[j1] == ':' && #[trigger] arg@[j2] == ':';
            assert forall|k: int| !#[trigger] only_sep_at(arg@, ':', k) by {
                if only_sep_at(arg@, ':', k) {
                    assert(arg@[j1] != ':' || arg@[j2] != ':');
                }
            }
        }
        return Err(String::from_str(EMIT_FORM_ERR));
    }
    let path = arg.substring_char(0, at);
    let list = arg.substring_char(at + 1, n);
    proof {
        assert(only_sep_at(arg@, ':', at as int));
        assert(path@ =~= arg@.take(at as int));
        assert(list@ =~= arg@.skip(at + 1));
        assert forall|k: int| #[trigger] only_sep_at(arg@, ':', k) implies k == at by {}
    }
    match parse_emit_list(list) {
        Ok(steps) => Ok((String::from_str(path), steps)),
        Err(e) => Err(e),
    }
}

} // verus!
