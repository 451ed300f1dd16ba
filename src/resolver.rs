//! Resolution of relative import specifiers against the path of the
//! importing module.
use vstd::prelude::*;
use crate::text::{chars_of, push_all, string_of};

verus! {

/// Why a specifier could not be resolved.
#[derive(Debug, PartialEq, Eq)]
pub enum ResolveError {
    /// The specifier does not start with `.`: bare and absolute imports are
    /// not supported.
    InvalidSpecifier(String),
}

/// A specifier that this resolver accepts: it starts with `.` (so `./x`
/// and `../x` are accepted, `lodash` and `/abs/path` are not).
pub open spec fn is_relative(spec: Seq<char>) -> bool {
    spec.len() > 0 && spec[0] == '.'
}

/// The segments of `s` between the `/` separators (a path with no `/` is
/// one segment; the empty path is one empty segment).
pub open spec fn split_path(s: Seq<char>) -> Seq<Seq<char>>
    decreases s.len(),
{
    if s.len() == 0 {
        seq![Seq::empty()]
    } else {
        let prev = split_path(s.drop_last());
        if s.last() == '/' {
            prev.push(Seq::empty())
        } else {
            prev.update(prev.len() - 1, prev.last().push(s.last()))
        }
    }
}

/// A segment that a following `..` cancels.
pub open spec fn is_name(seg: Seq<char>) -> bool {
    seg.len() > 0 && seg != seq!['.'] && seg != seq!['.', '.']
}

/// Applies one segment of a specifier to a directory: empty segments and
/// `.` change nothing, `..` leaves the last named directory.
pub open spec fn step(dir: Seq<Seq<char>>, seg: Seq<char>) -> Seq<Seq<char>> {
    if seg.len() == 0 || seg == seq!['.'] {
        dir
    } else if seg == seq!['.', '.'] {
        if dir.len() > 0 && is_name(dir.last()) {
            dir.drop_last()
        } else {
            dir.push(seg)
        }
    } else {
        dir.push(seg)
    }
}

/// Applies the segments `segs` to `dir`, first to last.
pub open spec fn apply_segments(dir: Seq<Seq<char>>, segs: Seq<Seq<char>>) -> Seq<Seq<char>>
    decreases segs.len(),
{
    if segs.len() == 0 {
        dir
    } else {
        step(apply_segments(dir, segs.drop_last()), segs.last())
    }
}

/// The index of the last `.` in `name`, or -1.
pub open spec fn last_dot(name: Seq<char>) -> int
    decreases name.len(),
{
    if name.len() == 0 {
        -1
    } else if name.last() == '.' {
        name.len() - 1
    } else {
        last_dot(name.drop_last())
    }
}

/// `name` with its extension, if it has one, replaced by `js`. A leading
/// `.` does not start an extension.
pub open spec fn with_js_ext(name: Seq<char>) -> Seq<char> {
    let stem = if last_dot(name) > 0 {
        name.take(last_dot(name))
    } else {
        name
    };
    stem + seq!['.', 'j', 's']
}

/// The segments joined by `/`.
pub open spec fn join_path(segs: Seq<Seq<char>>) -> Seq<char>
    decreases segs.len(),
{
    if segs.len() == 0 {
        Seq::empty()
    } else if segs.len() == 1 {
        segs[0]
    } else {
        join_path(segs.drop_last()) + seq!['/'] + segs.last()
    }
}

/// The path that `spec` names from the module at `base`: the directory of
/// `base`, then the segments of `spec` applied to it, with the file name's
/// extension forced to `js`.
pub open spec fn resolved_path(base: Seq<char>, spec: Seq<char>) -> Seq<char> {
    let segs = apply_segments(split_path(base).drop_last(), split_path(spec));
    let names = if segs.len() == 0 {
        seq![Seq::empty()]
    } else {
        segs
    };
    join_path(names.update(names.len() - 1, with_js_ext(names.last())))
}

/// What `resolve` returns for these inputs.
pub open spec fn resolve_spec(base: Seq<char>, spec: Seq<char>) -> Result<Seq<char>, Seq<char>> {
    if is_relative(spec) {
        Ok(resolved_path(base, spec))
    } else {
        Err(spec)
    }
}

/// Resolution depends on the base path and the specifier alone: the same
/// two inputs always give the same outcome.
pub proof fn lemma_resolve_deterministic(
    base: Seq<char>,
    spec: Seq<char>,
    base2: Seq<char>,
    spec2: Seq<char>,
)
    requires
        base == base2,
        spec == spec2,
    ensures
        resolve_spec(base, spec) == resolve_spec(base2, spec2),
{
}

/// Every specifier that does not start with `.` (a bare package name, an
/// absolute path, the empty string) is refused, whatever the base.
pub proof fn lemma_bare_specifier_rejected(base: Seq<char>, spec: Seq<char>)
    requires
        spec.len() == 0 || spec[0] != '.',
    ensures
        resolve_spec(base, spec) == Err::<Seq<char>, Seq<char>>(spec),
{
}

/// The views of a sequence of segments.
pub open spec fn views(v: Seq<Vec<char>>) -> Seq<Seq<char>> {
    v.map_values(|x: Vec<char>| x@)
}

proof fn lemma_split_nonempty(s: Seq<char>)
    ensures
        split_path(s).len() >= 1,
    decreases s.len(),
{
    if s.len() > 0 {
        lemma_split_nonempty(s.drop_last());
    }
}

fn split(s: &Vec<char>) -> (r: Vec<Vec<char>>)
    ensures
        views(r@) == split_path(s@),
{
    let mut segs: Vec<Vec<char>> = Vec::new();
    let mut cur: Vec<char> = Vec::new();
    let mut i: usize = 0;
    proof {
        assert(s@.take(0) =~= Seq::<char>::empty());
        assert(views(segs@).push(cur@) =~= seq![Seq::<char>::empty()]);
    }
    while i < s.len()
        invariant
            i <= s@.len(),
            views(segs@).push(cur@) == split_path(s@.take(i as int)),
        decreases s.len() - i,
    {
        let c = s[i];
        let ghost prev = split_path(s@.take(i as int));
        proof {
            assert(s@.take(i + 1).drop_last() =~= s@.take(i as int));
            lemma_split_nonempty(s@.take(i as int));
        }
        if c == '/' {
            let ghost old_segs = segs@;
            segs.push(cur);
            cur = Vec::new();
            assert(views(segs@) =~= views(old_segs).push(prev.last()));
            assert(views(segs@).push(cur@) =~= prev.push(Seq::empty()));
        } else {
            cur.push(c);
            assert(views(segs@).push(cur@) =~= prev.update(prev.len() - 1, prev.last().push(c)));
        }
        i = i + 1;
    }
    assert(s@.take(i as int) =~= s@);
    let ghost old_segs = segs@;
    segs.push(cur);
    assert(views(segs@) =~= views(old_segs).push(cur@));
    segs
}

fn is_single_dot(seg: &Vec<char>) -> (r: bool)
    ensures
        r == (seg@ == seq!['.']),
{
    if seg.len() == 1 && seg[0] == '.' {
        assert(seg@ =~= seq!['.']);
        true
    } else {
        false
    }
}

fn is_double_dot(seg: &Vec<char>) -> (r: bool)
    ensures
        r == (seg@ == seq!['.', '.']),
{
    if seg.len() == 2 && seg[0] == '.' && seg[1] == '.' {
        assert(seg@ =~= seq!['.', '.']);
        true
    } else {
        false
    }
}

fn normalize(dir: Vec<Vec<char>>, segs: &Vec<Vec<char>>) -> (r: Vec<Vec<char>>)
    ensures
        views(r@) == apply_segments(views(dir@), views(segs@)),
{
    let mut stack = dir;
    let ghost start = views(stack@);
    let mut i: usize = 0;
    assert(views(segs@).take(0) =~= Seq::<Seq<char>>::empty());
    while i < segs.len()
        invariant
            i <= segs@.len(),
            views(stack@) == apply_segments(start, views(segs@).take(i as int)),
        decreases segs.len() - i,
    {
        let seg = &segs[i];
        let ghost prev = views(stack@);
        assert(views(segs@).take(i + 1).drop_last() =~= views(segs@).take(i as int));
        assert(views(segs@).take(i + 1).last() == seg@);
        if seg.len() == 0 || is_single_dot(seg) {
        } else if is_double_dot(seg) {
            let n = stack.len();
            if n > 0 && stack[n - 1].len() > 0 && !is_single_dot(&stack[n - 1])
                && !is_double_dot(&stack[n - 1]) {
                stack.pop();
                assert(views(stack@) =~= prev.drop_last());
            } else {
                stack.push(seg.clone());
                assert(views(stack@) =~= prev.push(seg@));
            }
        } else {
            stack.push(seg.clone());
            assert(views(stack@) =~= prev.push(seg@));
        }
        i = i + 1;
    }
    assert(views(segs@).take(i as int) =~= views(segs@));
    stack
}

fn js_name(name: &Vec<char>) -> (r: Vec<char>)
    ensures
        r@ == with_js_ext(name@),
{
    let mut dot: usize = 0;
    let mut i: usize = 0;
    assert(name@.take(0) =~= Seq::<char>::empty());
    while i < name.len()
        invariant
            i <= name@.len(),
            dot as int == last_dot(name@.take(i as int)) + 1,
            dot <= i,
        decreases name.len() - i,
    {
        assert(name@.take(i + 1).drop_last() =~= name@.take(i as int));
        if name[i] == '.' {
            dot = i + 1;
        }
        i = i + 1;
    }
    assert(name@.take(i as int) =~= name@);
    let mut r: Vec<char> = Vec::new();
    let stem_len: usize = if dot > 1 { dot - 1 } else { name.len() };
    let mut j: usize = 0;
    while j < stem_len
        invariant
            j <= stem_len <= name@.len(),
            r@ == name@.take(j as int),
        decreases stem_len - j,
    {
        r.push(name[j]);
        assert(name@.take(j + 1) =~= name@.take(j as int).push(name@[j as int]));
        j = j + 1;
    }
    assert(name@.take(name@.len() as int) =~= name@);
    r.push('.');
    r.push('j');
    r.push('s');
    assert(r@ =~= with_js_ext(name@));
    r
}

fn join(segs: &Vec<Vec<char>>) -> (r: Vec<char>)
    requires
        segs@.len() >= 1,
    ensures
        r@ == join_path(views(segs@)),
{
    let mut out: Vec<char> = segs[0].clone();
    let mut i: usize = 1;
    assert(views(segs@).take(1) =~= seq![segs@[0]@]);
    while i < segs.len()
        invariant
            1 <= i <= segs@.len(),
            out@ == join_path(views(segs@).take(i as int)),
        decreases segs.len() - i,
    {
        assert(views(segs@).take(i + 1).drop_last() =~= views(segs@).take(i as int));
        out.push('/');
        push_all(&mut out, &segs[i]);
        i = i + 1;
    }
    assert(views(segs@).take(i as int) =~= views(segs@));
    out
}

/// Resolves `specifier` against the module at `base`. A specifier that
/// does not start with `.` is refused; otherwise the result is the
/// directory of `base` joined with the specifier, with `.` and `..`
/// collapsed and the file name's extension forced to `js`.
pub fn resolve(base: &str, specifier: &str) -> (r: Result<String, ResolveError>)
    ensures
        match r {
            Ok(p) => resolve_spec(base@, specifier@) == Ok::<Seq<char>, Seq<char>>(p@),
            Err(ResolveError::InvalidSpecifier(s)) => resolve_spec(base@, specifier@)
                == Err::<Seq<char>, Seq<char>>(s@),
        },
{
    let spec_chars = chars_of(specifier);
    if spec_chars.len() == 0 || spec_chars[0] != '.' {
        return Err(ResolveError::InvalidSpecifier(specifier.to_owned()));
    }
    let base_chars = chars_of(base);
    let mut dir = split(&base_chars);
    let ghost whole = dir@;
    proof {
        lemma_split_nonempty(base@);
    }
    dir.pop();
    assert(dir@ =~= whole.drop_last());
    let spec_segs = split(&spec_chars);
    let ghost dir_view = views(dir@);
    assert(dir_view =~= split_path(base@).drop_last());
    let mut names = normalize(dir, &spec_segs);
    if names.len() == 0 {
        names.push(Vec::new());
        assert(views(names@) =~= seq![Seq::<char>::empty()]);
    }
    let n = names.len();
    let file = js_name(&names[n - 1]);
    let ghost before = views(names@);
    names.set(n - 1, file);
    assert(views(names@) =~= before.update(n - 1, with_js_ext(before.last())));
    let joined = join(&names);
    Ok(string_of(&joined))
}

} // verus!
