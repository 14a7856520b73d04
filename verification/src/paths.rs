//! Path text: `dirname`, the deploy directory an `ostree=` token names, and
//! the selection and ordering of `*.conf` files in a directory.

use crate::firmware::ends_with;
use crate::text::{chars_of, matches_at, starts_with, string_of, sub_chars};
use vstd::prelude::*;

verus! {

/// Index of the last `c` in `s`.
pub open spec fn rfind_char(s: Seq<char>, c: char) -> Option<int>
    decreases s.len(),
{
    if s.len() == 0 {
        None
    } else if s.last() == c {
        Some(s.len() - 1)
    } else {
        rfind_char(s.drop_last(), c)
    }
}

proof fn lemma_rfind_char(s: Seq<char>, c: char)
    ensures
        rfind_char(s, c) matches Some(k) ==> 0 <= k < s.len() && s[k] == c && forall|j: int|
            k < j < s.len() ==> s[j] != c,
        rfind_char(s, c) is None ==> forall|j: int| 0 <= j < s.len() ==> s[j] != c,
    decreases s.len(),
{
    if s.len() > 0 && s.last() != c {
        let t = s.drop_last();
        lemma_rfind_char(t, c);
        assert(rfind_char(s, c) == rfind_char(t, c));
        assert forall|j: int| 0 <= j < s.len() - 1 implies s[j] == #[trigger] t[j] by {}
        assert(s[s.len() - 1] != c);
        match rfind_char(t, c) {
            Some(k) => {
                assert forall|j: int| k < j < s.len() implies s[j] != c by {
                    if j < s.len() - 1 {
                        assert(s[j] == t[j]);
                    }
                }
            },
            None => {
                assert forall|j: int| 0 <= j < s.len() implies s[j] != c by {
                    if j < s.len() - 1 {
                        assert(s[j] == t[j]);
                    }
                }
            },
        }
    }
}

/// POSIX `dirname` of a `/`-separated path: everything before the last `/`,
/// `/` when that is the only one at the start, `.` when there is none.
pub open spec fn dirname_of(p: Seq<char>) -> Seq<char> {
    match rfind_char(p, '/') {
        Some(k) => if k == 0 {
            "/"@
        } else {
            p.take(k)
        },
        None => "."@,
    }
}

/// POSIX `dirname` on a `/`-separated path.
pub fn dirname(path: &str) -> (r: String)
    ensures
        r@ == dirname_of(path@),
{
    let s = chars_of(path);
    let mut i: usize = s.len();
    assert(s@.take(s@.len() as int) =~= s@);
    while i > 0 && s[i - 1] != '/'
        invariant
            i <= s@.len(),
            s@ == path@,
            rfind_char(s@, '/') == rfind_char(s@.take(i as int), '/'),
        decreases i,
    {
        assert(s@.take(i as int).drop_last() =~= s@.take(i - 1));
        i = i - 1;
    }
    proof {
        assert(s@.take(s@.len() as int) =~= s@);
        if i > 0 {
            assert(s@.take(i as int).last() == s@[i - 1]);
        } else {
            assert(s@.take(0) =~= Seq::<char>::empty());
        }
    }
    if i == 0 {
        ".".to_owned()
    } else if i == 1 {
        "/".to_owned()
    } else {
        string_of(&sub_chars(&s, 0, i - 1))
    }
}

/// `s` with every leading repeat of `p` removed (`str::trim_start_matches`).
pub open spec fn strip_leading(s: Seq<char>, p: Seq<char>) -> Seq<char>
    decreases s.len(),
{
    if p.len() > 0 && starts_with(s, p) {
        strip_leading(s.skip(p.len() as int), p)
    } else {
        s
    }
}

/// The deploy directory an `ostree=<path>` token names: the `dirname` of its
/// value.
pub open spec fn slot_dir_of(token: Seq<char>) -> Seq<char> {
    dirname_of(strip_leading(token, "ostree="@))
}

/// The directory whose presence tells whether the slot of `token` exists.
pub fn slot_deploy_dir(token: &str) -> (r: String)
    ensures
        r@ == slot_dir_of(token@),
{
    let s = chars_of(token);
    let key = chars_of("ostree=");
    proof {
        reveal_strlit("ostree=");
    }
    let mut i: usize = 0;
    assert(s@.skip(0) =~= s@);
    let mut more = matches_at(&s, 0, &key);
    let n = s.len();
    while more
        invariant
            i <= s@.len(),
            n == s@.len(),
            key@ == "ostree="@,
            key@.len() == 7,
            more == crate::text::occurs_at(s@, i as int, key@),
            strip_leading(s@, key@) == strip_leading(s@.skip(i as int), key@),
        decreases s@.len() - i,
    {
        proof {
            crate::text::lemma_starts_with_occurs(s@.skip(i as int), key@);
            assert(s@.skip(i as int).take(key@.len() as int) =~= s@.subrange(
                i as int,
                i + key@.len(),
            ));
            assert(s@.skip(i as int).skip(key@.len() as int) =~= s@.skip(i + key@.len()));
        }
        i = i + key.len();
        more = matches_at(&s, i, &key);
    }
    proof {
        let t = s@.skip(i as int);
        if t.len() >= key@.len() {
            assert(t.take(key@.len() as int) =~= s@.subrange(i as int, i + key@.len()));
        }
    }
    let rest = string_of(&sub_chars(&s, i, s.len()));
    assert(s@.subrange(i as int, s@.len() as int) =~= s@.skip(i as int));
    dirname(rest.as_str())
}

/// `name` is a `*.conf`-style file to read: it ends with `suffix` and, when
/// a prefix is given, starts with it.
pub open spec fn conf_name_selected(name: Seq<char>, prefix: Option<Seq<char>>, suffix: Seq<char>) -> bool {
    &&& match prefix {
        Some(p) => starts_with(name, p),
        None => true,
    }
    &&& ends_with(name, suffix)
}

/// The selected names, in their original order.
pub open spec fn selected_names(
    names: Seq<Seq<char>>,
    prefix: Option<Seq<char>>,
    suffix: Seq<char>,
) -> Seq<Seq<char>>
    decreases names.len(),
{
    if names.len() == 0 {
        Seq::empty()
    } else {
        let r = selected_names(names.drop_last(), prefix, suffix);
        if conf_name_selected(names.last(), prefix, suffix) {
            r.push(names.last())
        } else {
            r
        }
    }
}

/// Code-point lexicographic order; on UTF-8 text it is the byte order of
/// the encodings.
pub open spec fn text_lt(a: Seq<char>, b: Seq<char>) -> bool
    decreases a.len(),
{
    if a.len() == 0 {
        b.len() > 0
    } else if b.len() == 0 {
        false
    } else if a[0] != b[0] {
        a[0] < b[0]
    } else {
        text_lt(a.drop_first(), b.drop_first())
    }
}

pub open spec fn text_le(a: Seq<char>, b: Seq<char>) -> bool {
    a == b || text_lt(a, b)
}

/// `s` is in ascending order.
pub open spec fn sorted_text(s: Seq<Seq<char>>) -> bool {
    forall|i: int, j: int| 0 <= i < j < s.len() ==> text_le(#[trigger] s[i], #[trigger] s[j])
}

proof fn lemma_text_total(a: Seq<char>, b: Seq<char>)
    ensures
        a == b || text_lt(a, b) || text_lt(b, a),
        !(text_lt(a, b) && text_lt(b, a)),
        !text_lt(a, a),
    decreases a.len(),
{
    if a.len() > 0 && b.len() > 0 && a[0] == b[0] {
        lemma_text_total(a.drop_first(), b.drop_first());
        if a.drop_first() == b.drop_first() {
            assert(a =~= seq![a[0]] + a.drop_first());
            assert(b =~= seq![b[0]] + b.drop_first());
        }
    }
    if a.len() > 0 {
        lemma_text_total(a.drop_first(), a.drop_first());
    }
    if a.len() == 0 && b.len() == 0 {
        assert(a =~= b);
    }
}

proof fn lemma_text_trans(a: Seq<char>, b: Seq<char>, c: Seq<char>)
    requires
        text_lt(a, b),
        text_lt(b, c),
    ensures
        text_lt(a, c),
    decreases a.len(),
{
    if a.len() > 0 && b.len() > 0 && c.len() > 0 && a[0] == b[0] && b[0] == c[0] {
        lemma_text_trans(a.drop_first(), b.drop_first(), c.drop_first());
    }
}

fn text_less(a: &[char], b: &[char]) -> (r: bool)
    ensures
        r == text_lt(a@, b@),
{
    let mut i: usize = 0;
    assert(a@.skip(0) =~= a@);
    assert(b@.skip(0) =~= b@);
    while i < a.len() && i < b.len()
        invariant
            i <= a@.len(),
            i <= b@.len(),
            text_lt(a@, b@) == text_lt(a@.skip(i as int), b@.skip(i as int)),
        decreases a.len() - i,
    {
        assert(a@.skip(i as int)[0] == a@[i as int]);
        assert(b@.skip(i as int)[0] == b@[i as int]);
        if a[i] != b[i] {
            return a[i] < b[i];
        }
        assert(a@.skip(i as int).drop_first() =~= a@.skip(i + 1));
        assert(b@.skip(i as int).drop_first() =~= b@.skip(i + 1));
        i = i + 1;
    }
    i < b.len()
}

fn name_selected(name: &[char], prefix: &Option<Vec<char>>, suffix: &[char]) -> (b: bool)
    ensures
        b == conf_name_selected(
            name@,
            match prefix {
                Some(p) => Some(p@),
                None => None,
            },
            suffix@,
        ),
{
    let prefix_ok = match prefix {
        Some(p) => {
            proof {
                crate::text::lemma_starts_with_occurs(name@, p@);
                assert(name@.take(p@.len() as int) =~= name@.subrange(0, p@.len() as int));
            }
            matches_at(name, 0, p)
        },
        None => true,
    };
    if suffix.len() > name.len() {
        return false;
    }
    let at = name.len() - suffix.len();
    let hit = matches_at(name, at, suffix);
    assert(name@.skip(at as int) =~= name@.subrange(at as int, name@.len() as int));
    prefix_ok && hit
}

fn insert_sorted(v: &mut Vec<Vec<char>>, x: Vec<char>)
    requires
        sorted_text(old(v)@.map_values(|t: Vec<char>| t@)),
    ensures
        sorted_text(final(v)@.map_values(|t: Vec<char>| t@)),
        final(v)@.map_values(|t: Vec<char>| t@).to_multiset() == old(v)@.map_values(
            |t: Vec<char>| t@,
        ).to_multiset().insert(x@),
{
    let ghost vs = v@.map_values(|t: Vec<char>| t@);
    let mut k: usize = 0;
    while k < v.len() && !text_less(&x, &v[k])
        invariant
            k <= v@.len(),
            vs == v@.map_values(|t: Vec<char>| t@),
            forall|i: int| 0 <= i < k ==> !text_lt(x@, #[trigger] vs[i]),
        decreases v.len() - k,
    {
        k = k + 1;
    }
    let ghost xv = x@;
    v.insert(k, x);
    proof {
        let ws = v@.map_values(|t: Vec<char>| t@);
        assert(ws =~= vs.insert(k as int, xv));
        vstd::seq_lib::to_multiset_insert(vs, k as int, xv);
        assert forall|i: int, j: int| 0 <= i < j < ws.len() implies text_le(
            #[trigger] ws[i],
            #[trigger] ws[j],
        ) by {
            if j < k {
                assert(ws[i] == vs[i] && ws[j] == vs[j]);
            } else if j == k {
                assert(ws[j] == xv && ws[i] == vs[i]);
                lemma_text_total(vs[i], xv);
            } else if i == k {
                assert(ws[i] == xv && ws[j] == vs[j - 1]);
                assert(text_lt(xv, vs[k as int]));
                if j - 1 > k {
                    assert(text_le(vs[k as int], vs[j - 1]));
                    if vs[k as int] != vs[j - 1] {
                        lemma_text_trans(xv, vs[k as int], vs[j - 1]);
                    }
                }
            } else if i < k {
                assert(ws[i] == vs[i] && ws[j] == vs[j - 1]);
            } else {
                assert(ws[i] == vs[i - 1] && ws[j] == vs[j - 1]);
            }
        }
    }
}

/// The names among `names` to read as `*.conf` files, in ascending byte
/// order (the order a `C`-locale glob gives).
pub fn sorted_conf_names(names: &[String], prefix: Option<&str>, suffix: &str) -> (r: Vec<String>)
    ensures
        sorted_text(r@.map_values(|s: String| s@)),
        r@.map_values(|s: String| s@).to_multiset() == selected_names(
            names@.map_values(|s: String| s@),
            match prefix {
                Some(p) => Some(p@),
                None => None,
            },
            suffix@,
        ).to_multiset(),
{
    let ghost nv = names@.map_values(|s: String| s@);
    let ghost pv: Option<Seq<char>> = match prefix {
        Some(p) => Some(p@),
        None => None,
    };
    let pre: Option<Vec<char>> = match prefix {
        Some(p) => Some(chars_of(p)),
        None => None,
    };
    let suf = chars_of(suffix);
    let mut kept: Vec<Vec<char>> = Vec::new();
    let mut i: usize = 0;
    assert(nv.take(0) =~= Seq::<Seq<char>>::empty());
    assert(kept@.map_values(|t: Vec<char>| t@) =~= selected_names(nv.take(0), pv, suffix@));
    while i < names.len()
        invariant
            i <= names@.len(),
            nv == names@.map_values(|s: String| s@),
            suf@ == suffix@,
            pv == match pre {
                Some(p) => Some(p@),
                None => None::<Seq<char>>,
            },
            sorted_text(kept@.map_values(|t: Vec<char>| t@)),
            kept@.map_values(|t: Vec<char>| t@).to_multiset() == selected_names(
                nv.take(i as int),
                pv,
                suffix@,
            ).to_multiset(),
        decreases names.len() - i,
    {
        let n = chars_of(names[i].as_str());
        assert(nv.take(i + 1).drop_last() =~= nv.take(i as int));
        assert(nv.take(i + 1).last() == n@);
        if name_selected(&n, &pre, &suf) {
            let ghost before = selected_names(nv.take(i as int), pv, suffix@);
            insert_sorted(&mut kept, n);
            proof {
                vstd::seq_lib::to_multiset_build(before, nv[i as int]);
            }
        }
        i = i + 1;
    }
    assert(nv.take(i as int) =~= nv);
    let mut out: Vec<String> = Vec::new();
    let mut j: usize = 0;
    while j < kept.len()
        invariant
            j <= kept@.len(),
            out@.map_values(|s: String| s@) == kept@.map_values(|t: Vec<char>| t@).take(j as int),
        decreases kept.len() - j,
    {
        let ghost before = out@.map_values(|s: String| s@);
        let st = string_of(&kept[j]);
        let ghost sv = st@;
        out.push(st);
        assert(out@.map_values(|s: String| s@) =~= before.push(sv));
        j = j + 1;
        assert(out@.map_values(|s: String| s@) =~= kept@.map_values(|t: Vec<char>| t@).take(
            j as int,
        ));
    }
    assert(kept@.map_values(|t: Vec<char>| t@).take(j as int) =~= kept@.map_values(
        |t: Vec<char>| t@,
    ));
    out
}

} // verus!
