use vstd::prelude::*;
use vstd::string::{StrSliceExecFns, StringExecFns};

verus! {

/// The non-empty runs of characters other than `/` in `s`, left to right.
pub open spec fn segments(s: Seq<char>) -> Seq<Seq<char>>
    decreases s.len(),
{
    if s.len() == 0 {
        Seq::empty()
    } else {
        let prev = segments(s.drop_last());
        if s.last() == '/' {
            prev
        } else if s.len() >= 2 && s[s.len() - 2] != '/' && prev.len() > 0 {
            prev.update(prev.len() - 1, prev.last().push(s.last()))
        } else {
            prev.push(seq![s.last()])
        }
    }
}

/// The marker that error texts of missing groups and keys carry.
pub open spec fn no_such_marker() -> Seq<char> {
    seq!['N', 'o', ' ', 's', 'u', 'c', 'h']
}

pub open spec fn contains_at(s: Seq<char>, p: Seq<char>, i: int) -> bool {
    0 <= i && i + p.len() <= s.len() && s.subrange(i, i + p.len()) == p
}

pub open spec fn contains_marker(s: Seq<char>) -> bool {
    exists|i: int| #[trigger] contains_at(s, no_such_marker(), i)
}

/// Splits a request path on `/`, drops empty pieces, and gives back the
/// group and key when exactly two pieces remain.
pub fn parse_path(url: &str) -> (r: Option<(String, String)>)
    ensures
        match r {
            Some((g, k)) => segments(url@).len() == 2 && g@ == segments(url@)[0] && k@ == segments(
                url@,
            )[1],
            None => segments(url@).len() != 2,
        },
{
    let n = url.unicode_len();
    let mut starts: Vec<usize> = Vec::new();
    let mut ends: Vec<usize> = Vec::new();
    let mut i: usize = 0;
    while i < n
        invariant
            n == url@.len(),
            i <= n,
            starts@.len() == ends@.len(),
            starts@.len() == segments(url@.take(i as int)).len(),
            forall|j: int| #![trigger starts@[j]] 0 <= j < starts@.len() ==> starts@[j] <= ends@[j] && ends@[j] <= i,
            forall|j: int|
                0 <= j < starts@.len() ==> #[trigger] segments(url@.take(i as int))[j]
                    == url@.subrange(starts@[j] as int, ends@[j] as int),
            i > 0 && url@[i - 1] != '/' ==> starts@.len() > 0 && ends@.last() == i,
        decreases n - i,
    {
        let c = url.get_char(i);
        let ghost pre = url@.take(i as int);
        let ghost cur = url@.take(i as int + 1);
        let ghost ps = segments(pre);
        let ghost st = starts@;
        let ghost en = ends@;
        assert(cur.drop_last() =~= pre);
        assert(cur.last() == c);
        if c == '/' {
            assert(segments(cur) == ps);
            assert forall|j: int| #![trigger starts@[j]] 0 <= j < starts@.len() implies starts@[j]
                <= ends@[j] && ends@[j] <= i + 1 by {
                assert(st[j] <= en[j] && en[j] <= i);
            }
        } else if i > 0 && url.get_char(i - 1) != '/' {
            let last = ends.len() - 1;
            ends.set(last, i + 1);
            proof {
                assert(cur[cur.len() - 2] == url@[i - 1]);
                assert(segments(cur) == ps.update(last as int, ps.last().push(c)));
                assert(url@.subrange(st[last as int] as int, i + 1) =~= url@.subrange(
                    st[last as int] as int,
                    i as int,
                ).push(c));
                assert forall|j: int| 0 <= j < starts@.len() implies #[trigger] segments(cur)[j]
                    == url@.subrange(starts@[j] as int, ends@[j] as int) by {
                    if j < last {
                        assert(segments(pre)[j] == url@.subrange(st[j] as int, en[j] as int));
                    } else {
                        assert(segments(pre)[j] == url@.subrange(st[j] as int, en[j] as int));
                    }
                }
                assert forall|j: int| #![trigger starts@[j]] 0 <= j < starts@.len() implies starts@[j]
                    <= ends@[j] && ends@[j] <= i + 1 by {
                    assert(st[j] <= en[j] && en[j] <= i);
                }
            }
        } else {
            starts.push(i);
            ends.push(i + 1);
            proof {
                if i > 0 {
                    assert(cur[cur.len() - 2] == url@[i - 1]);
                }
                assert(segments(cur) == ps.push(seq![c]));
                assert(url@.subrange(i as int, i + 1) =~= seq![c]);
                assert forall|j: int| 0 <= j < starts@.len() implies #[trigger] segments(cur)[j]
                    == url@.subrange(starts@[j] as int, ends@[j] as int) by {
                    if j < st.len() {
                        assert(segments(pre)[j] == url@.subrange(st[j] as int, en[j] as int));
                    }
                }
                assert forall|j: int| #![trigger starts@[j]] 0 <= j < starts@.len() implies starts@[j]
                    <= ends@[j] && ends@[j] <= i + 1 by {
                    if j < st.len() {
                        assert(st[j] <= en[j] && en[j] <= i);
                    }
                }
            }
        }
        i = i + 1;
    }
    assert(url@.take(n as int) =~= url@);
    assert(i == n);
    assert(forall|j: int|
        #![trigger starts@[j]]
        0 <= j < starts@.len() ==> starts@[j] <= ends@[j] && ends@[j] <= i);
    if starts.len() == 2 {
        assert(starts@.len() == 2);
        let ghost z: int = 0;
        let ghost o: int = 1;
        assert(starts@[z] <= ends@[z] && ends@[z] <= i);
        assert(starts@[o] <= ends@[o] && ends@[o] <= i);
        assert(segments(url@.take(n as int))[0] == url@.subrange(starts@[0] as int, ends@[0] as int));
        assert(segments(url@.take(n as int))[1] == url@.subrange(starts@[1] as int, ends@[1] as int));
        assert(segments(url@)[0] == url@.subrange(starts@[0] as int, ends@[0] as int));
        assert(segments(url@)[1] == url@.subrange(starts@[1] as int, ends@[1] as int));
        let g = String::from_str(url.substring_char(starts[0], ends[0]));
        let k = String::from_str(url.substring_char(starts[1], ends[1]));
        Some((g, k))
    } else {
        None
    }
}

/// The HTTP status for an error text: 404 when it carries the missing-item
/// marker, 500 otherwise.
pub fn error_status(err: &str) -> (r: u16)
    ensures
        r == (if contains_marker(err@) {
            404u16
        } else {
            500u16
        }),
{
    let pat: Vec<char> = vec!['N', 'o', ' ', 's', 'u', 'c', 'h'];
    assert(pat@ =~= no_such_marker());
    let n = err.unicode_len();
    if n < 7 {
        assert forall|i: int| !#[trigger] contains_at(err@, no_such_marker(), i) by {}
        return 500;
    }
    let mut i: usize = 0;
    while i <= n - 7
        invariant
            n == err@.len(),
            n >= 7,
            pat@ == no_such_marker(),
            i <= n - 6,
            forall|j: int| 0 <= j < i ==> !#[trigger] contains_at(err@, no_such_marker(), j),
        decreases n - i,
    {
        let mut j: usize = 0;
        let mut ok = true;
        while j < 7
            invariant
                i + 7 <= n,
                n == err@.len(),
                pat@ == no_such_marker(),
                j <= 7,
                ok ==> forall|m: int| 0 <= m < j ==> err@[i + m] == pat@[m],
                !ok ==> !contains_at(err@, no_such_marker(), i as int),
            decreases 7 - j,
        {
            if err.get_char(i + j) != pat[j] {
                if ok {
                    assert(err@.subrange(i as int, i + 7)[j as int] != pat@[j as int]);
                }
                ok = false;
            }
            j = j + 1;
        }
        if ok {
            assert(err@.subrange(i as int, i + 7) =~= no_such_marker());
            assert(contains_at(err@, no_such_marker(), i as int));
            return 404;
        }
        i = i + 1;
    }
    assert forall|j: int| !#[trigger] contains_at(err@, no_such_marker(), j) by {
        if 0 <= j && j + 7 <= n {
            assert(j < i);
        }
    }
    500
}

} // verus!
