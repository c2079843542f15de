//! Lexical path handling on '/'-separated text: splitting into components,
//! resolving `.` and `..` without touching the file system, the parent of a
//! note, and the stem under which a link target is looked up.
use vstd::prelude::*;
use crate::text::{chars_of, string_of};

verus! {

/// A path as its normalizer sees it: whether it starts at the root, and its
/// named components in order.
pub type PathState = (bool, Seq<Seq<char>>);

/// `acc` with the piece `seg` appended, unless the piece is empty or `.`.
pub open spec fn keep(acc: Seq<Seq<char>>, seg: Seq<char>) -> Seq<Seq<char>> {
    if seg.len() == 0 || seg == seq!['.'] {
        acc
    } else {
        acc.push(seg)
    }
}

/// The components of `s` from position `i` on, where `cur` is the piece read
/// so far and `acc` the components before it.
pub open spec fn comps_from(s: Seq<char>, i: int, cur: Seq<char>, acc: Seq<Seq<char>>) -> Seq<Seq<char>>
    decreases s.len() - i,
{
    if i >= s.len() {
        keep(acc, cur)
    } else if s[i] == '/' {
        comps_from(s, i + 1, seq![], keep(acc, cur))
    } else {
        comps_from(s, i + 1, cur.push(s[i]), acc)
    }
}

/// The components of the path `s`: the pieces between slashes, without the
/// empty ones and without `.`.
pub open spec fn components(s: Seq<char>) -> Seq<Seq<char>> {
    comps_from(s, 0, seq![], seq![])
}

/// Does the path start at the root?
pub open spec fn is_rooted(s: Seq<char>) -> bool {
    s.len() > 0 && s[0] == '/'
}

/// One component applied to a path being normalized: `..` drops the last
/// component (with none left it is dropped itself, so `..` at the root
/// stays at the root); any other is appended.
pub open spec fn apply(st: PathState, seg: Seq<char>) -> PathState {
    if seg == seq!['.', '.'] {
        if st.1.len() > 0 {
            (st.0, st.1.drop_last())
        } else {
            st
        }
    } else {
        (st.0, st.1.push(seg))
    }
}

/// The components `segs` applied in order to `st`.
pub open spec fn fold(st: PathState, segs: Seq<Seq<char>>) -> PathState
    decreases segs.len(),
{
    if segs.len() == 0 {
        st
    } else {
        apply(fold(st, segs.drop_last()), segs.last())
    }
}

/// The components joined by slashes.
pub open spec fn join(parts: Seq<Seq<char>>) -> Seq<char>
    decreases parts.len(),
{
    if parts.len() == 0 {
        seq![]
    } else if parts.len() == 1 {
        parts[0]
    } else {
        join(parts.drop_last()) + seq!['/'] + parts.last()
    }
}

/// The text of a path state.
pub open spec fn render(st: PathState) -> Seq<char> {
    if st.0 {
        seq!['/'] + join(st.1)
    } else {
        join(st.1)
    }
}

/// The normal form of the path `s` as a state.
pub open spec fn normal_state(s: Seq<char>) -> PathState {
    fold((is_rooted(s), seq![]), components(s))
}

/// The normal form of the path `s`: `.` and empty pieces dropped, each `..`
/// removing what precedes it (a leading `..` is dropped; a rooted path
/// stays rooted, as `..` at the root stays at the root).
pub open spec fn normalized(s: Seq<char>) -> Seq<char> {
    render(normal_state(s))
}

/// The parent of a path, as the root flag and the components before the
/// last one; a path without components has the empty parent.
pub open spec fn parent_state(s: Seq<char>) -> PathState {
    if components(s).len() == 0 {
        (false, seq![])
    } else {
        (is_rooted(s), components(s).drop_last())
    }
}

/// Where a link written `raw` in the note at `source` points, normalized:
/// a rooted `raw` as it stands, any other relative to the note's directory.
pub open spec fn link_state(source: Seq<char>, raw: Seq<char>) -> PathState {
    if is_rooted(raw) {
        normal_state(raw)
    } else {
        let p = parent_state(source);
        fold((p.0, seq![]), p.1 + components(raw))
    }
}

/// The position of the last `.` among the first `n` characters of `name`,
/// or -1.
pub open spec fn last_dot(name: Seq<char>, n: int) -> int
    decreases n,
{
    if n <= 0 {
        -1
    } else if name[n - 1] == '.' {
        n - 1
    } else {
        last_dot(name, n - 1)
    }
}

/// The stem of a file name: the part before its last `.`, unless that dot
/// is the first character or there is none (then the whole name).
pub open spec fn stem_of(name: Seq<char>) -> Seq<char> {
    let j = last_dot(name, name.len() as int);
    if name == seq!['.', '.'] || j <= 0 {
        name
    } else {
        name.subrange(0, j)
    }
}

/// The stem of a normalized path: that of its last component, or the whole
/// text of a path without components.
pub open spec fn state_stem(st: PathState) -> Seq<char> {
    if st.1.len() == 0 {
        render(st)
    } else {
        stem_of(st.1.last())
    }
}

/// The texts of the character vectors `v`.
pub open spec fn views(v: Seq<Vec<char>>) -> Seq<Seq<char>> {
    Seq::new(v.len(), |i: int| v[i]@)
}

proof fn lemma_fold_step(st: PathState, segs: Seq<Seq<char>>, i: int)
    requires
        0 <= i < segs.len(),
    ensures
        fold(st, segs.take(i + 1)) == apply(fold(st, segs.take(i)), segs[i]),
{
    assert(segs.take(i + 1).drop_last() =~= segs.take(i));
}

proof fn lemma_join_step(parts: Seq<Seq<char>>, i: int)
    requires
        0 < i < parts.len(),
    ensures
        join(parts.take(i + 1)) == join(parts.take(i)) + seq!['/'] + parts[i],
{
    assert(parts.take(i + 1).drop_last() =~= parts.take(i));
}

/// The components of the path `s`, and whether it starts at the root.
fn split_path(s: &Vec<char>) -> (r: (bool, Vec<Vec<char>>))
    ensures
        r.0 == is_rooted(s@),
        views(r.1@) == components(s@),
{
    let rooted = s.len() > 0 && s[0] == '/';
    let mut acc: Vec<Vec<char>> = Vec::new();
    let mut cur: Vec<char> = Vec::new();
    let mut i: usize = 0;
    assert(cur@ =~= seq![]);
    assert(views(acc@) =~= seq![]);
    while i < s.len()
        invariant
            i <= s@.len(),
            comps_from(s@, i as int, cur@, views(acc@)) == components(s@),
        decreases s@.len() - i,
    {
        if s[i] == '/' {
            let done = cur;
            cur = Vec::new();
            keep_piece(&mut acc, done);
        } else {
            cur.push(s[i]);
        }
        i = i + 1;
    }
    keep_piece(&mut acc, cur);
    (rooted, acc)
}

fn keep_piece(acc: &mut Vec<Vec<char>>, seg: Vec<char>)
    ensures
        views(final(acc)@) == keep(views(old(acc)@), seg@),
{
    let dot = seg.len() == 1 && seg[0] == '.';
    if !(seg.len() == 0 || dot) {
        proof {
            assert(seg@ != seq!['.']);
        }
        let ghost before = views(acc@);
        acc.push(seg);
        assert(views(acc@) =~= before.push(seg@));
    } else {
        proof {
            if dot {
                assert(seg@ =~= seq!['.']);
            }
        }
    }
}

fn is_dotdot(seg: &Vec<char>) -> (r: bool)
    ensures
        r == (seg@ == seq!['.', '.']),
{
    let r = seg.len() == 2 && seg[0] == '.' && seg[1] == '.';
    proof {
        if r {
            assert(seg@ =~= seq!['.', '.']);
        }
    }
    r
}

/// Applies the components `segs` in order to the state `(rooted, parts)`.
fn fold_into(rooted: bool, parts: Vec<Vec<char>>, segs: &Vec<Vec<char>>) -> (r: (bool, Vec<Vec<char>>))
    ensures
        (r.0, views(r.1@)) == fold((rooted, views(parts@)), views(segs@)),
{
    let ghost init = (rooted, views(parts@));
    let root = rooted;
    let mut out = parts;
    let mut i: usize = 0;
    while i < segs.len()
        invariant
            i <= segs@.len(),
            (root, views(out@)) == fold(init, views(segs@).take(i as int)),
        decreases segs@.len() - i,
    {
        proof {
            lemma_fold_step(init, views(segs@), i as int);
        }
        let ghost before = views(out@);
        if is_dotdot(&segs[i]) {
            if out.len() > 0 {
                out.pop();
                assert(views(out@) =~= before.drop_last());
            }
        } else {
            out.push(segs[i].clone());
            assert(views(out@) =~= before.push(views(segs@)[i as int]));
        }
        i = i + 1;
    }
    assert(views(segs@).take(segs@.len() as int) =~= views(segs@));
    (root, out)
}

/// The text of the state `(rooted, parts)`.
pub(crate) fn render_state(rooted: bool, parts: &Vec<Vec<char>>) -> (r: Vec<char>)
    ensures
        r@ == render((rooted, views(parts@))),
{
    let mut out: Vec<char> = Vec::new();
    let mut i: usize = 0;
    while i < parts.len()
        invariant
            i <= parts@.len(),
            out@ == join(views(parts@).take(i as int)),
        decreases parts@.len() - i,
    {
        if i > 0 {
            out.push('/');
            proof {
                lemma_join_step(views(parts@), i as int);
            }
        } else {
            assert(views(parts@).take(1).drop_last() =~= seq![]);
        }
        let mut j: usize = 0;
        let ghost start = out@;
        while j < parts[i].len()
            invariant
                i < parts@.len(),
                j <= parts@[i as int]@.len(),
                out@ == start + parts@[i as int]@.take(j as int),
            decreases parts@[i as int]@.len() - j,
        {
            out.push(parts[i][j]);
            assert(parts@[i as int]@.take(j as int + 1) =~= parts@[i as int]@.take(j as int).push(parts@[i as int]@[j as int]));
            j = j + 1;
        }
        assert(parts@[i as int]@.take(j as int) =~= parts@[i as int]@);
        assert(views(parts@)[i as int] == parts@[i as int]@);
        assert(i == 0 ==> start =~= seq![]);
        i = i + 1;
    }
    assert(views(parts@).take(parts@.len() as int) =~= views(parts@));
    if rooted {
        let mut r: Vec<char> = Vec::new();
        r.push('/');
        let mut k: usize = 0;
        while k < out.len()
            invariant
                k <= out@.len(),
                r@ == seq!['/'] + out@.take(k as int),
            decreases out@.len() - k,
        {
            r.push(out[k]);
            assert(out@.take(k as int + 1) =~= out@.take(k as int).push(out@[k as int]));
            k = k + 1;
        }
        assert(out@.take(out@.len() as int) =~= out@);
        r
    } else {
        out
    }
}

/// Resolves `.` and `..` in `path` without touching the file system: empty
/// and `.` pieces are dropped and each `..` removes what precedes it.
pub fn normalize_path(path: &str) -> (r: String)
    ensures
        r@ == normalized(path@),
{
    let chars = chars_of(path);
    let (rooted, comps) = split_path(&chars);
    let empty: Vec<Vec<char>> = Vec::new();
    assert(views(empty@) =~= Seq::<Seq<char>>::empty());
    let (root, parts) = fold_into(rooted, empty, &comps);
    let text = render_state(root, &parts);
    string_of(&text)
}

/// The stem of the file name `name` (see `stem_of`).
pub(crate) fn name_stem(name: &Vec<char>) -> (r: Vec<char>)
    ensures
        r@ == stem_of(name@),
{
    let mut n: usize = name.len();
    while n > 0 && name[n - 1] != '.'
        invariant
            n <= name@.len(),
            last_dot(name@, name@.len() as int) == last_dot(name@, n as int),
        decreases n,
    {
        n = n - 1;
    }
    let dotdot = is_dotdot(name);
    if dotdot || n <= 1 {
        name.clone()
    } else {
        let mut r: Vec<char> = Vec::new();
        let mut k: usize = 0;
        while k < n - 1
            invariant
                1 < n <= name@.len(),
                k <= n - 1,
                r@ == name@.subrange(0, k as int),
            decreases n - 1 - k,
        {
            r.push(name[k]);
            assert(name@.subrange(0, k as int + 1) =~= name@.subrange(0, k as int).push(name@[k as int]));
            k = k + 1;
        }
        r
    }
}

/// Where a link written `raw` in the note at `source` points, and the stem
/// it is looked up by: a rooted `raw` is taken as it stands, any other is
/// joined to the directory of `source`; the result is normalized.
pub fn resolve_link(source: &str, raw: &str) -> (r: (String, String))
    ensures
        r.0@ == render(link_state(source@, raw@)),
        r.1@ == state_stem(link_state(source@, raw@)),
{
    let raw_chars = chars_of(raw);
    let (raw_rooted, raw_comps) = split_path(&raw_chars);
    let empty: Vec<Vec<char>> = Vec::new();
    assert(views(empty@) =~= Seq::<Seq<char>>::empty());
    let (root, parts) = if raw_rooted {
        fold_into(true, empty, &raw_comps)
    } else {
        let src_chars = chars_of(source);
        let (src_rooted, mut comps) = split_path(&src_chars);
        let ghost src_comps = views(comps@);
        let p_rooted = if comps.len() == 0 {
            false
        } else {
            comps.pop();
            assert(views(comps@) =~= src_comps.drop_last());
            src_rooted
        };
        let ghost parent = views(comps@);
        let mut k: usize = 0;
        while k < raw_comps.len()
            invariant
                k <= raw_comps@.len(),
                views(comps@) == parent + views(raw_comps@).take(k as int),
            decreases raw_comps@.len() - k,
        {
            let ghost before = views(comps@);
            comps.push(raw_comps[k].clone());
            assert(views(comps@) =~= before.push(views(raw_comps@)[k as int]));
            assert(views(raw_comps@).take(k as int + 1) =~= views(raw_comps@).take(k as int).push(views(raw_comps@)[k as int]));
            k = k + 1;
        }
        assert(views(raw_comps@).take(raw_comps@.len() as int) =~= views(raw_comps@));
        fold_into(p_rooted, empty, &comps)
    };
    let text = render_state(root, &parts);
    let stem = if parts.len() == 0 {
        text.clone()
    } else {
        let last = parts.len() - 1;
        assert(views(parts@).last() == parts@[last as int]@);
        name_stem(&parts[last])
    };
    (string_of(&text), string_of(&stem))
}

/// Does the path start with a `.` component (`.` alone, or `./...`)?
pub open spec fn leading_cur(s: Seq<char>) -> bool {
    s.len() >= 1 && s[0] == '.' && (s.len() == 1 || s[1] == '/')
}

/// The components a path compares by: a leading `.` if there is one, then
/// the named components and `..` (empty pieces and other `.` are not
/// components).
pub open spec fn key_parts(s: Seq<char>) -> Seq<Seq<char>> {
    if leading_cur(s) {
        seq![seq!['.']] + components(s)
    } else {
        components(s)
    }
}

/// The spelling of a path that two paths share exactly when they have the
/// same components: `a//b/`, `a/./b` and `a/b` have one key, `./a` another.
pub open spec fn path_key(s: Seq<char>) -> Seq<char> {
    render((is_rooted(s), key_parts(s)))
}

/// A component as an ordering key: its kind (`.` before `..` before a name),
/// its characters, and an end mark below every character.
pub open spec fn comp_code(c: Seq<char>) -> Seq<i64> {
    let kind: i64 = if c == seq!['.'] { -4i64 } else if c == seq!['.', '.'] { -3i64 } else { -2i64 };
    seq![kind] + Seq::new(c.len(), |i: int| c[i] as i64) + seq![-1i64]
}

/// The ordering keys of the components, one after the other.
pub open spec fn codes(parts: Seq<Seq<char>>) -> Seq<i64>
    decreases parts.len(),
{
    if parts.len() == 0 {
        seq![]
    } else {
        codes(parts.drop_last()) + comp_code(parts.last())
    }
}

/// The key that orders paths by their components, as std orders paths: the
/// root first, then component by component, a path before its extensions.
pub open spec fn path_order(s: Seq<char>) -> Seq<i64> {
    (if is_rooted(s) { seq![-5i64, -1i64] } else { seq![] }) + codes(key_parts(s))
}

/// The components `path` compares by, and whether it starts at the root.
pub(crate) fn key_split(path: &str) -> (r: (bool, Vec<Vec<char>>))
    ensures
        r.0 == is_rooted(path@),
        views(r.1@) == key_parts(path@),
{
    let chars = chars_of(path);
    let (rooted, comps) = split_path(&chars);
    let lead = chars.len() >= 1 && chars[0] == '.' && (chars.len() == 1 || chars[1] == '/');
    if lead {
        let mut out: Vec<Vec<char>> = Vec::new();
        let mut dot: Vec<char> = Vec::new();
        dot.push('.');
        out.push(dot);
        let mut k: usize = 0;
        while k < comps.len()
            invariant
                k <= comps@.len(),
                views(out@) == seq![seq!['.']] + views(comps@).take(k as int),
            decreases comps@.len() - k,
        {
            let ghost before = views(out@);
            out.push(comps[k].clone());
            assert(views(out@) =~= before.push(views(comps@)[k as int]));
            assert(views(comps@).take(k as int + 1) =~= views(comps@).take(k as int).push(views(comps@)[k as int]));
            k = k + 1;
        }
        assert(views(comps@).take(comps@.len() as int) =~= views(comps@));
        (rooted, out)
    } else {
        (rooted, comps)
    }
}

/// The spelling of `path` that paths with the same components share.
pub fn path_key_of(path: &str) -> (r: String)
    ensures
        r@ == path_key(path@),
{
    let (rooted, parts) = key_split(path);
    let text = render_state(rooted, &parts);
    string_of(&text)
}

/// The key that orders `path` among paths by components.
pub fn path_order_of(path: &str) -> (r: Vec<i64>)
    ensures
        r@ == path_order(path@),
{
    let (rooted, parts) = key_split(path);
    let mut out: Vec<i64> = Vec::new();
    if rooted {
        out.push(-5);
        out.push(-1);
    }
    let ghost head = out@;
    assert(head =~= (if is_rooted(path@) { seq![-5i64, -1i64] } else { seq![] }));
    let mut k: usize = 0;
    while k < parts.len()
        invariant
            k <= parts@.len(),
            out@ == head + codes(views(parts@).take(k as int)),
        decreases parts@.len() - k,
    {
        let ghost before = out@;
        let part = &parts[k];
        let kind: i64 = if part.len() == 1 && part[0] == '.' {
            assert(part@ =~= seq!['.']);
            -4
        } else if is_dotdot(part) {
            proof {
                if part@ == seq!['.'] {
                    assert(part@.len() == 1);
                }
            }
            -3
        } else {
            proof {
                if part@ == seq!['.'] {
                    assert(part@.len() == 1 && part@[0] == '.');
                }
            }
            -2
        };
        out.push(kind);
        let mut j: usize = 0;
        while j < part.len()
            invariant
                j <= part@.len(),
                out@ == before + seq![kind] + Seq::new(j as nat, |i: int| part@[i] as i64),
            decreases part@.len() - j,
        {
            out.push(part[j] as i64);
            assert(Seq::new((j + 1) as nat, |i: int| part@[i] as i64) =~= Seq::new(j as nat, |i: int| part@[i] as i64).push(part@[j as int] as i64));
            j = j + 1;
        }
        out.push(-1);
        proof {
            assert(views(parts@)[k as int] == part@);
            assert(out@ =~= before + comp_code(part@));
            assert(views(parts@).take(k as int + 1).drop_last() =~= views(parts@).take(k as int));
            assert(codes(views(parts@).take(k as int + 1)) == codes(views(parts@).take(k as int)) + comp_code(part@));
            assert(out@ =~= head + codes(views(parts@).take(k as int + 1)));
        }
        k = k + 1;
    }
    assert(views(parts@).take(parts@.len() as int) =~= views(parts@));
    out
}

/// The file name of a path (std's `Path::file_name`): its last component,
/// unless there is none or it is `.` or `..`.
pub open spec fn file_name(s: Seq<char>) -> Option<Seq<char>> {
    let c = key_parts(s);
    if c.len() == 0 || c.last() == seq!['.'] || c.last() == seq!['.', '.'] {
        None
    } else {
        Some(c.last())
    }
}

/// The stem of a path's file name, empty without a file name (std's
/// `Path::file_stem`, or the empty text).
pub open spec fn file_stem(s: Seq<char>) -> Seq<char> {
    match file_name(s) {
        Some(n) => stem_of(n),
        None => seq![],
    }
}

/// The extension of a path's file name (std's `Path::extension`): what
/// follows its last `.`, unless the name has none or starts with it.
pub open spec fn extension(s: Seq<char>) -> Option<Seq<char>> {
    match file_name(s) {
        Some(n) => {
            let j = last_dot(n, n.len() as int);
            if j <= 0 {
                None
            } else {
                Some(n.subrange(j + 1, n.len() as int))
            }
        },
        None => None,
    }
}

/// The file name of `path`, if it has one (see [`file_name`]).
pub fn file_name_of(path: &str) -> (r: Option<String>)
    ensures
        match file_name(path@) {
            Some(n) => r matches Some(x) && x@ == n,
            None => r is None,
        },
{
    let (_rooted, parts) = key_split(path);
    let n = parts.len();
    if n == 0 {
        return None;
    }
    let last = &parts[n - 1];
    assert(views(parts@).last() == last@);
    if (last.len() == 1 && last[0] == '.') || (last.len() == 2 && last[0] == '.' && last[1] == '.') {
        proof {
            if last@.len() == 1 {
                assert(last@ =~= seq!['.']);
            } else {
                assert(last@ =~= seq!['.', '.']);
            }
        }
        return None;
    }
    proof {
        if last@ == seq!['.'] {
            assert(last@.len() == 1 && last@[0] == '.');
        }
        if last@ == seq!['.', '.'] {
            assert(last@.len() == 2 && last@[0] == '.' && last@[1] == '.');
        }
    }
    Some(string_of(last.as_slice()))
}

/// The stem of `path`'s file name, empty without one (see [`file_stem`]).
pub fn file_stem_of(path: &str) -> (r: String)
    ensures
        r@ == file_stem(path@),
{
    match file_name_of(path) {
        Some(n) => {
            let chars = chars_of(n.as_str());
            let stem = name_stem(&chars);
            string_of(stem.as_slice())
        },
        None => String::new(),
    }
}

/// Is the extension of `path`'s file name `md`?
pub fn has_md_extension(path: &str) -> (r: bool)
    ensures
        r == (extension(path@) == Some(seq!['m', 'd'])),
{
    match file_name_of(path) {
        Some(n) => {
            let chars = chars_of(n.as_str());
            let len = chars.len();
            let mut j: usize = len;
            while j > 0 && chars[j - 1] != '.'
                invariant
                    j <= chars@.len(),
                    len == chars@.len(),
                    last_dot(chars@, chars@.len() as int) == last_dot(chars@, j as int),
                decreases j,
            {
                j = j - 1;
            }
            if j <= 1 {
                assert(last_dot(chars@, j as int) <= 0);
                return false;
            }
            let dot = j - 1;
            let r = len - dot == 3 && chars[dot + 1] == 'm' && chars[dot + 2] == 'd';
            proof {
                let ext = chars@.subrange(dot + 1, chars@.len() as int);
                if r {
                    assert(ext =~= seq!['m', 'd']);
                } else if ext == seq!['m', 'd'] {
                    assert(ext.len() == 2);
                    assert(ext[0] == 'm' && ext[1] == 'd');
                }
            }
            r
        },
        None => false,
    }
}

/// `name` joined to `base` (std's `Path::join`): a rooted `name` stands
/// alone; otherwise a `/` goes between them unless `base` is empty or ends
/// with one.
pub open spec fn join_path(base: Seq<char>, name: Seq<char>) -> Seq<char> {
    if is_rooted(name) {
        name
    } else if base.len() == 0 || base.last() == '/' {
        base + name
    } else {
        base + seq!['/'] + name
    }
}

/// `name` joined to `base` (see [`join_path`]).
pub fn join_path_of(base: &str, name: &str) -> (r: String)
    ensures
        r@ == join_path(base@, name@),
{
    let name_chars = chars_of(name);
    let base_chars = chars_of(base);
    if name_chars.len() > 0 && name_chars[0] == '/' {
        return name.to_owned();
    }
    let mut w = base.to_owned();
    if !(base_chars.len() == 0 || base_chars[base_chars.len() - 1] == '/') {
        crate::text::push_char(&mut w, '/');
    }
    crate::text::push_str(&mut w, name);
    w
}

/// The extension of `path`'s file name, if it has one (see [`extension`]).
pub fn extension_of(path: &str) -> (r: Option<String>)
    ensures
        match extension(path@) {
            Some(e) => r matches Some(x) && x@ == e,
            None => r is None,
        },
{
    match file_name_of(path) {
        Some(n) => {
            let chars = chars_of(n.as_str());
            let len = chars.len();
            let mut j: usize = len;
            while j > 0 && chars[j - 1] != '.'
                invariant
                    j <= chars@.len(),
                    len == chars@.len(),
                    last_dot(chars@, chars@.len() as int) == last_dot(chars@, j as int),
                decreases j,
            {
                j = j - 1;
            }
            if j <= 1 {
                assert(last_dot(chars@, j as int) <= 0);
                return None;
            }
            let mut ext: Vec<char> = Vec::new();
            let mut k: usize = j;
            while k < len
                invariant
                    j <= k <= len,
                    len == chars@.len(),
                    ext@ == chars@.subrange(j as int, k as int),
                decreases len - k,
            {
                ext.push(chars[k]);
                assert(chars@.subrange(j as int, k + 1) =~= chars@.subrange(j as int, k as int).push(chars@[k as int]));
                k = k + 1;
            }
            Some(string_of(ext.as_slice()))
        },
        None => None,
    }
}

/// A component a normalized path can have: not empty, no `/`, and neither
/// `.` nor `..`.
pub open spec fn clean_part(c: Seq<char>) -> bool {
    c.len() > 0 && c != seq!['.'] && c != seq!['.', '.'] && forall|j: int| 0 <= j < c.len() ==> c[j] != '/'
}

/// Every component is clean.
pub open spec fn clean_parts(ps: Seq<Seq<char>>) -> bool {
    forall|i: int| 0 <= i < ps.len() ==> clean_part(#[trigger] ps[i])
}

proof fn lemma_fold_parts(b: bool, ps: Seq<Seq<char>>)
    requires
        forall|i: int| 0 <= i < ps.len() ==> #[trigger] ps[i] != seq!['.', '.'],
    ensures
        fold((b, seq![]), ps) == (b, ps),
    decreases ps.len(),
{
    if ps.len() > 0 {
        lemma_fold_parts(b, ps.drop_last());
        assert(ps.last() == ps[ps.len() - 1]);
        assert(ps.drop_last().push(ps.last()) =~= ps);
    }
}

proof fn lemma_fold_clean(st: PathState, segs: Seq<Seq<char>>)
    requires
        clean_parts(st.1),
        forall|i: int| 0 <= i < segs.len() ==> clean_part(#[trigger] segs[i]) || segs[i] == seq!['.', '.'],
    ensures
        clean_parts(fold(st, segs).1),
    decreases segs.len(),
{
    if segs.len() > 0 {
        lemma_fold_clean(st, segs.drop_last());
        let f = fold(st, segs.drop_last());
        assert(segs.last() == segs[segs.len() - 1]);
        if segs.last() != seq!['.', '.'] {
            assert forall|i: int| 0 <= i < f.1.push(segs.last()).len() implies clean_part(#[trigger] f.1.push(segs.last())[i]) by {
                if i < f.1.len() {
                    assert(f.1.push(segs.last())[i] == f.1[i]);
                }
            }
        } else if f.1.len() > 0 {
            assert forall|i: int| 0 <= i < f.1.drop_last().len() implies clean_part(#[trigger] f.1.drop_last()[i]) by {
                assert(f.1.drop_last()[i] == f.1[i]);
            }
        }
    }
}

proof fn lemma_comps_mixed(s: Seq<char>, i: int, cur: Seq<char>, acc: Seq<Seq<char>>)
    requires
        0 <= i,
        forall|k: int| 0 <= k < acc.len() ==> clean_part(#[trigger] acc[k]) || acc[k] == seq!['.', '.'],
        forall|j: int| 0 <= j < cur.len() ==> cur[j] != '/',
    ensures
        forall|k: int| 0 <= k < comps_from(s, i, cur, acc).len() ==>
            clean_part(#[trigger] comps_from(s, i, cur, acc)[k]) || comps_from(s, i, cur, acc)[k] == seq!['.', '.'],
    decreases s.len() - i,
{
    let kept = keep(acc, cur);
    assert forall|k: int| 0 <= k < kept.len() implies clean_part(#[trigger] kept[k]) || kept[k] == seq!['.', '.'] by {
        if k < acc.len() {
            assert(kept[k] == acc[k]);
        }
    }
    if i >= s.len() {
        assert(comps_from(s, i, cur, acc) == kept);
    } else if s[i] == '/' {
        lemma_comps_mixed(s, i + 1, seq![], kept);
        assert(comps_from(s, i, cur, acc) == comps_from(s, i + 1, seq![], kept));
    } else {
        let c2 = cur.push(s[i]);
        assert forall|j: int| 0 <= j < c2.len() implies c2[j] != '/' by {
            if j < cur.len() {
                assert(c2[j] == cur[j]);
            }
        }
        lemma_comps_mixed(s, i + 1, c2, acc);
        assert(comps_from(s, i, cur, acc) == comps_from(s, i + 1, c2, acc));
    }
}

proof fn lemma_scan_piece(s: Seq<char>, i: int, w: Seq<char>, cur: Seq<char>, acc: Seq<Seq<char>>)
    requires
        0 <= i,
        i + w.len() <= s.len(),
        s.subrange(i, i + w.len() as int) == w,
        forall|j: int| 0 <= j < w.len() ==> w[j] != '/',
    ensures
        comps_from(s, i, cur, acc) == comps_from(s, i + w.len(), cur + w, acc),
    decreases w.len(),
{
    if w.len() == 0 {
        assert(cur + w =~= cur);
    } else {
        assert(s[i] == w[0]);
        let w2 = w.drop_first();
        assert(s.subrange(i + 1, i + 1 + w2.len()) =~= w2);
        lemma_scan_piece(s, i + 1, w2, cur.push(s[i]), acc);
        assert(cur.push(s[i]) + w2 =~= cur + w);
    }
}

proof fn lemma_join_len(ps: Seq<Seq<char>>)
    ensures
        ps.len() > 0 ==> join(ps).len() >= ps.last().len(),
        ps.len() > 0 ==> join(ps).subrange(join(ps).len() - ps.last().len(), join(ps).len() as int) == ps.last(),
    decreases ps.len(),
{
    if ps.len() > 1 {
        let j = join(ps);
        assert(j == join(ps.drop_last()) + seq!['/'] + ps.last());
        assert(j.subrange(j.len() - ps.last().len(), j.len() as int) =~= ps.last());
    } else if ps.len() == 1 {
        assert(join(ps) == ps[0]);
        assert(join(ps).subrange(0, join(ps).len() as int) =~= ps[0]);
    }
}

proof fn lemma_scan_join(s: Seq<char>, o: int, ps: Seq<Seq<char>>)
    requires
        0 <= o,
        ps.len() > 0,
        clean_parts(ps),
        o + join(ps).len() <= s.len(),
        s.subrange(o, o + join(ps).len()) == join(ps),
    ensures
        comps_from(s, o, seq![], seq![]) == comps_from(s, o + join(ps).len(), ps.last(), ps.drop_last()),
    decreases ps.len(),
{
    if ps.len() == 1 {
        assert(join(ps) == ps[0]);
        assert(clean_part(ps[0]));
        lemma_scan_piece(s, o, ps[0], seq![], seq![]);
        assert(seq![] + ps[0] =~= ps[0]);
        assert(ps.drop_last() =~= Seq::<Seq<char>>::empty());
    } else {
        let pre = ps.drop_last();
        let last = ps.last();
        let jp = join(pre);
        let m = o + jp.len();
        assert(join(ps) == jp + seq!['/'] + last);
        assert(clean_parts(pre)) by {
            assert forall|k: int| 0 <= k < pre.len() implies clean_part(#[trigger] pre[k]) by {
                assert(pre[k] == ps[k]);
            }
        }
        assert(s.subrange(o, m) =~= jp) by {
            assert(s.subrange(o, o + join(ps).len()).subrange(0, jp.len() as int) =~= jp);
        }
        lemma_scan_join(s, o, pre);
        assert(s[m] == '/') by {
            assert(s.subrange(o, o + join(ps).len())[jp.len() as int] == '/');
        }
        assert(clean_part(pre.last())) by {
            assert(pre.last() == pre[pre.len() - 1]);
        }
        assert(keep(pre.drop_last(), pre.last()) =~= pre);
        assert(clean_part(last)) by {
            assert(last == ps[ps.len() - 1]);
        }
        assert(s.subrange(m + 1, m + 1 + last.len()) =~= last) by {
            assert(s.subrange(o, o + join(ps).len()).subrange(jp.len() as int + 1, join(ps).len() as int) =~= last);
        }
        lemma_scan_piece(s, m + 1, last, seq![], pre);
        assert(seq![] + last =~= last);
    }
}

proof fn lemma_join_first(ps: Seq<Seq<char>>)
    requires
        ps.len() > 0,
        clean_parts(ps),
    ensures
        join(ps).len() > 0,
        join(ps)[0] == ps[0][0],
    decreases ps.len(),
{
    assert(clean_part(ps[0]));
    if ps.len() > 1 {
        let pre = ps.drop_last();
        assert(clean_parts(pre)) by {
            assert forall|k: int| 0 <= k < pre.len() implies clean_part(#[trigger] pre[k]) by {
                assert(pre[k] == ps[k]);
            }
        }
        lemma_join_first(pre);
        assert(pre[0] == ps[0]);
    }
}

/// The components of the text of a clean path are its components.
proof fn lemma_render_components(st: PathState)
    requires
        clean_parts(st.1),
    ensures
        components(render(st)) == st.1,
        is_rooted(render(st)) == st.0,
{
    let r = render(st);
    if st.1.len() == 0 {
        if st.0 {
            assert(r =~= seq!['/']);
            assert(comps_from(r, 1, seq![], keep(seq![], seq![])) == keep(seq![], seq![]));
        } else {
            assert(r =~= Seq::<char>::empty());
        }
    } else {
        lemma_join_len(st.1);
        lemma_join_first(st.1);
        assert(clean_part(st.1[0]));
        let o: int = if st.0 { 1 } else { 0 };
        assert(r.subrange(o, o + join(st.1).len()) =~= join(st.1));
        if st.0 {
            assert(r[0] == '/');
            assert(comps_from(r, 0, seq![], seq![]) == comps_from(r, 1, seq![], keep(seq![], seq![])));
            assert(keep(Seq::<Seq<char>>::empty(), Seq::<char>::empty()) =~= Seq::<Seq<char>>::empty());
        } else {
            assert(r[0] == st.1[0][0]);
            assert(st.1[0][0] != '/');
        }
        lemma_scan_join(r, o, st.1);
        assert(st.1.last() == st.1[st.1.len() - 1]);
        assert(keep(st.1.drop_last(), st.1.last()) =~= st.1);
    }
}

/// Normalizing is idempotent: a normalized path normalizes to itself.
pub proof fn law_normalize_idempotent(s: Seq<char>)
    ensures
        normalized(normalized(s)) == normalized(s),
{
    let segs = components(s);
    lemma_comps_mixed(s, 0, seq![], seq![]);
    let st = normal_state(s);
    lemma_fold_clean((is_rooted(s), seq![]), segs);
    lemma_render_components(st);
    assert(forall|i: int| 0 <= i < st.1.len() ==> #[trigger] st.1[i] != seq!['.', '.']) by {
        assert forall|i: int| 0 <= i < st.1.len() implies #[trigger] st.1[i] != seq!['.', '.'] by {
            assert(clean_part(st.1[i]));
        }
    }
    lemma_fold_parts(st.0, st.1);
}


proof fn lemma_fold_keeps_root(st: PathState, segs: Seq<Seq<char>>)
    ensures
        fold(st, segs).0 == st.0,
    decreases segs.len(),
{
    if segs.len() > 0 {
        lemma_fold_keeps_root(st, segs.drop_last());
    }
}

/// A normalized path starts at the root exactly when the path does, and
/// none of its components is `.` or `..` (so `/../a` normalizes to `/a`).
pub proof fn law_normalize_keeps_root(s: Seq<char>)
    ensures
        is_rooted(normalized(s)) == is_rooted(s),
        forall|i: int| 0 <= i < components(normalized(s)).len() ==> clean_part(#[trigger] components(normalized(s))[i]),
{
    let segs = components(s);
    lemma_comps_mixed(s, 0, seq![], seq![]);
    let st = normal_state(s);
    lemma_fold_clean((is_rooted(s), seq![]), segs);
    lemma_fold_keeps_root((is_rooted(s), seq![]), segs);
    lemma_render_components(st);
}

} // verus!
