//! Unix paths as text: their components, prefixes, joining and the
//! lexical clean-up of `.` and `..`.
//!
//! A path splits at `/` into components: a leading `/` is the root,
//! repeated separators and `.` are dropped (except a `.` that starts a
//! relative path), `..` is kept as a parent component, and everything
//! else is a name.

use crate::text::{chars_of, push_char, text_of};
use vstd::prelude::*;
use vstd::string::*;

verus! {

/// One component of a path.
#[derive(Clone, Debug)]
pub enum PathPart {
    RootDir,
    CurDir,
    ParentDir,
    Normal(String),
}

/// A component as text.
pub enum Part {
    Root,
    Cur,
    Parent,
    Name(Seq<char>),
}

/// The view of a component.
pub open spec fn part_of(p: PathPart) -> Part {
    match p {
        PathPart::RootDir => Part::Root,
        PathPart::CurDir => Part::Cur,
        PathPart::ParentDir => Part::Parent,
        PathPart::Normal(s) => Part::Name(s@),
    }
}

/// Index of the first `/` of `s` at or after `i`, or the length of `s`.
pub open spec fn seg_end(s: Seq<char>, i: int) -> int
    decreases s.len() - i,
{
    if i >= s.len() {
        s.len() as int
    } else if s[i] == '/' {
        i
    } else {
        seg_end(s, i + 1)
    }
}

/// The components of the segments of `s` from `i` on; `at_start` when
/// the segment at `i` begins a relative path.
pub open spec fn parts_from(s: Seq<char>, i: int, at_start: bool) -> Seq<Part>
    decreases s.len() - i, 0int,
{
    if i < 0 || i > s.len() {
        seq![]
    } else {
        let e = seg_end(s, i);
        let seg = s.subrange(i, e);
        let part: Seq<Part> = if seg.len() == 0 {
            seq![]
        } else if seg == seq!['.'] {
            if at_start {
                seq![Part::Cur]
            } else {
                seq![]
            }
        } else if seg == seq!['.', '.'] {
            seq![Part::Parent]
        } else {
            seq![Part::Name(seg)]
        };
        if e < s.len() && e >= i {
            part + parts_from(s, e + 1, false)
        } else {
            part
        }
    }
}

/// The components of a path.
pub open spec fn components(s: Seq<char>) -> Seq<Part> {
    if s.len() > 0 && s[0] == '/' {
        seq![Part::Root] + parts_from(s, 1, false)
    } else {
        parts_from(s, 0, true)
    }
}

proof fn lemma_seg_end(s: Seq<char>, i: int)
    requires
        0 <= i <= s.len(),
    ensures
        i <= seg_end(s, i) <= s.len(),
        seg_end(s, i) < s.len() ==> s[seg_end(s, i)] == '/',
        forall|k: int| i <= k < seg_end(s, i) ==> s[k] != '/',
    decreases s.len() - i,
{
    if i < s.len() && s[i] != '/' {
        lemma_seg_end(s, i + 1);
    }
}

/// Whether `chars[from..to]` is `.` or `..`.
fn dots(chars: &Vec<char>, from: usize, to: usize) -> (r: (bool, bool))
    requires
        from <= to <= chars@.len(),
    ensures
        r.0 == (chars@.subrange(from as int, to as int) == seq!['.']),
        r.1 == (chars@.subrange(from as int, to as int) == seq!['.', '.']),
{
    let ghost seg = chars@.subrange(from as int, to as int);
    let one = to - from == 1 && chars[from] == '.';
    let two = to - from == 2 && chars[from] == '.' && chars[from + 1] == '.';
    proof {
        assert(seg.len() == to - from);
        if seg.len() >= 1 {
            assert(seg[0] == chars@[from as int]);
        }
        if seg.len() >= 2 {
            assert(seg[1] == chars@[from + 1]);
        }
        if one {
            assert(seg =~= seq!['.']);
        }
        if two {
            assert(seg =~= seq!['.', '.']);
        }
        if seg == seq!['.'] {
            assert(seg[0] == '.');
        }
        if seg == seq!['.', '.'] {
            assert(seg[0] == '.' && seg[1] == '.');
        }
    }
    (one, two)
}

/// The components of a path.
pub fn path_components(path: &str) -> (r: Vec<PathPart>)
    ensures
        r@.map_values(|p: PathPart| part_of(p)) == components(path@),
{
    let chars = chars_of(path);
    let n = chars.len();
    let mut out: Vec<PathPart> = Vec::new();
    let rooted = n > 0 && chars[0] == '/';
    let mut i: usize = 0;
    let mut at_start = true;
    if rooted {
        out.push(PathPart::RootDir);
        i = 1;
        at_start = false;
    }
    let ghost total = components(path@);
    proof {
        if rooted {
            assert(out@.map_values(|p: PathPart| part_of(p)) + parts_from(chars@, 1, false) =~= total);
        } else {
            assert(out@.map_values(|p: PathPart| part_of(p)) + parts_from(chars@, 0, true) =~= total);
        }
    }
    loop
        invariant_except_break
            out@.map_values(|p: PathPart| part_of(p)) + parts_from(chars@, i as int, at_start) == total,
        invariant
            n == chars@.len(),
            chars@ == path@,
            i <= n,
            total == components(path@),
        ensures
            out@.map_values(|p: PathPart| part_of(p)) == total,
        decreases n - i,
    {
        let ghost before = out@.map_values(|p: PathPart| part_of(p));
        proof {
            lemma_seg_end(chars@, i as int);
        }
        let mut e = i;
        while e < n && chars[e] != '/'
            invariant
                i <= e <= n,
                n == chars@.len(),
                seg_end(chars@, i as int) == seg_end(chars@, e as int),
            decreases n - e,
        {
            e = e + 1;
        }
        assert(seg_end(chars@, e as int) == e);
        let (one, two) = dots(&chars, i, e);
        if e == i {
        } else if one {
            if at_start {
                out.push(PathPart::CurDir);
            }
        } else if two {
            out.push(PathPart::ParentDir);
        } else {
            let name = text_of(&chars, i, e);
            out.push(PathPart::Normal(name));
        }
        let ghost seg = chars@.subrange(i as int, e as int);
        let ghost part: Seq<Part> = if seg.len() == 0 {
            seq![]
        } else if seg == seq!['.'] {
            if at_start {
                seq![Part::Cur]
            } else {
                seq![]
            }
        } else if seg == seq!['.', '.'] {
            seq![Part::Parent]
        } else {
            seq![Part::Name(seg)]
        };
        assert(out@.map_values(|p: PathPart| part_of(p)) =~= before + part);
        if e >= n {
            assert(parts_from(chars@, i as int, at_start) == part);
            assert(before + part =~= total);
            break;
        }
        assert(parts_from(chars@, i as int, at_start) == part + parts_from(chars@, e + 1, false));
        assert(before + (part + parts_from(chars@, e + 1, false)) =~= (before + part) + parts_from(
            chars@,
            e + 1,
            false,
        ));
        i = e + 1;
        at_start = false;
    }
    out
}

/// Whether the components of `base` begin those of `path`.
pub open spec fn starts_with_spec(path: Seq<char>, base: Seq<char>) -> bool {
    let p = components(path);
    let b = components(base);
    b.len() <= p.len() && p.take(b.len() as int) == b
}

fn part_eq(a: &PathPart, b: &PathPart) -> (r: bool)
    ensures
        r == (part_of(*a) == part_of(*b)),
{
    match (a, b) {
        (PathPart::RootDir, PathPart::RootDir) => true,
        (PathPart::CurDir, PathPart::CurDir) => true,
        (PathPart::ParentDir, PathPart::ParentDir) => true,
        (PathPart::Normal(x), PathPart::Normal(y)) => {
            let xs = chars_of(x.as_str());
            let ys = chars_of(y.as_str());
            let r = same_chars(&xs, &ys);
            r
        },
        _ => false,
    }
}

/// Whether two character lists are equal.
pub fn same_chars(a: &Vec<char>, b: &Vec<char>) -> (r: bool)
    ensures
        r == (a@ == b@),
{
    if a.len() != b.len() {
        return false;
    }
    let mut i: usize = 0;
    while i < a.len()
        invariant
            i <= a@.len(),
            a@.len() == b@.len(),
            forall|j: int| 0 <= j < i ==> a@[j] == b@[j],
        decreases a@.len() - i,
    {
        if a[i] != b[i] {
            return false;
        }
        i = i + 1;
    }
    assert(a@ =~= b@);
    true
}

/// Whether two paths name the same place, component by component.
pub fn same_path(a: &str, b: &str) -> (r: bool)
    ensures
        r == (components(a@) == components(b@)),
{
    let r = starts_with(a, b) && starts_with(b, a);
    proof {
        let x = components(a@);
        let y = components(b@);
        if r {
            assert(x =~= y) by {
                assert(x.take(y.len() as int) == y);
                assert(y.take(x.len() as int) == x);
            }
        }
        if x == y {
            assert(x.take(y.len() as int) =~= y);
        }
    }
    r
}

/// Whether `path` lies within `base`, component by component.
pub fn starts_with(path: &str, base: &str) -> (r: bool)
    ensures
        r == starts_with_spec(path@, base@),
{
    let p = path_components(path);
    let b = path_components(base);
    let ghost pv = p@.map_values(|x: PathPart| part_of(x));
    let ghost bv = b@.map_values(|x: PathPart| part_of(x));
    assert(pv == components(path@) && bv == components(base@));
    if b.len() > p.len() {
        return false;
    }
    let mut i: usize = 0;
    while i < b.len()
        invariant
            b@.len() <= p@.len(),
            i <= b@.len(),
            pv == p@.map_values(|x: PathPart| part_of(x)),
            bv == b@.map_values(|x: PathPart| part_of(x)),
            pv == components(path@),
            bv == components(base@),
            forall|j: int| 0 <= j < i ==> pv[j] == bv[j],
        decreases b@.len() - i,
    {
        if !part_eq(&p[i], &b[i]) {
            assert(pv.take(bv.len() as int)[i as int] != bv[i as int]);
            return false;
        }
        i = i + 1;
    }
    assert(pv.take(bv.len() as int) =~= bv);
    true
}

/// Whether some component of `path` is the name `name`.
pub open spec fn has_name(path: Seq<char>, name: Seq<char>) -> bool {
    exists|i: int| 0 <= i < components(path).len() && #[trigger] components(path)[i] == Part::Name(name)
}

/// Whether some component of `path` is the name `name`.
pub fn has_component(path: &str, name: &str) -> (r: bool)
    ensures
        r == has_name(path@, name@),
{
    let parts = path_components(path);
    let ghost pv = parts@.map_values(|x: PathPart| part_of(x));
    let target = PathPart::Normal(name.to_owned());
    let mut i: usize = 0;
    while i < parts.len()
        invariant
            i <= parts@.len(),
            pv == parts@.map_values(|x: PathPart| part_of(x)),
            pv == components(path@),
            part_of(target) == Part::Name(name@),
            forall|j: int| 0 <= j < i ==> pv[j] != Part::Name(name@),
        decreases parts@.len() - i,
    {
        if part_eq(&parts[i], &target) {
            assert(pv[i as int] == Part::Name(name@));
            return true;
        }
        i = i + 1;
    }
    false
}

/// The names left after lexical clean-up of the components from `k` on,
/// on top of `stack`: `.` is dropped, `..` removes the name before it
/// (never going above the root or the start), names are kept.
pub open spec fn clean(parts: Seq<Part>, k: int, stack: Seq<Seq<char>>) -> Seq<Seq<char>>
    decreases parts.len() - k,
{
    if k < 0 || k >= parts.len() {
        stack
    } else {
        let next = match parts[k] {
            Part::Name(n) => stack.push(n),
            Part::Parent => if stack.len() > 0 {
                stack.drop_last()
            } else {
                stack
            },
            _ => stack,
        };
        clean(parts, k + 1, next)
    }
}

/// Names joined with `/`.
pub open spec fn joined(names: Seq<Seq<char>>) -> Seq<char>
    decreases names.len(),
{
    if names.len() == 0 {
        seq![]
    } else if names.len() == 1 {
        names[0]
    } else {
        joined(names.drop_last()) + seq!['/'] + names.last()
    }
}

/// `path` with `.` and `..` cleaned away lexically: absolute paths stay
/// absolute, and `..` never climbs above the root.
pub open spec fn normalized(path: Seq<char>) -> Seq<char> {
    let parts = components(path);
    let names = clean(parts, 0, seq![]);
    if parts.len() > 0 && parts[0] == Part::Root {
        seq!['/'] + joined(names)
    } else {
        joined(names)
    }
}

/// Clean a path of `.`, `..` and trailing separators without touching the
/// disk: symlinks are left alone.
pub fn normalize(path: &str) -> (r: String)
    ensures
        r@ == normalized(path@),
{
    let parts = path_components(path);
    let ghost pv = parts@.map_values(|x: PathPart| part_of(x));
    let mut stack: Vec<String> = Vec::new();
    assert(stack@.map_values(|s: String| s@) =~= Seq::<Seq<char>>::empty());
    let mut k: usize = 0;
    while k < parts.len()
        invariant
            k <= parts@.len(),
            pv == parts@.map_values(|x: PathPart| part_of(x)),
            pv == components(path@),
            clean(pv, k as int, stack@.map_values(|s: String| s@)) == clean(pv, 0, seq![]),
        decreases parts@.len() - k,
    {
        let ghost before = stack@.map_values(|s: String| s@);
        match &parts[k] {
            PathPart::Normal(name) => {
                stack.push(name.clone());
                assert(stack@.map_values(|s: String| s@) =~= before.push(name@));
            },
            PathPart::ParentDir => {
                if stack.len() > 0 {
                    stack.pop();
                    assert(stack@.map_values(|s: String| s@) =~= before.drop_last());
                }
            },
            _ => {},
        }
        k = k + 1;
    }
    let ghost names = stack@.map_values(|s: String| s@);
    assert(names == clean(pv, 0, seq![])) by {
        assert(clean(pv, k as int, names) == names);
    }
    let mut out = String::new();
    let rooted = parts.len() > 0 && match &parts[0] {
        PathPart::RootDir => true,
        _ => false,
    };
    if rooted {
        push_char(&mut out, '/');
    }
    let ghost start = out@;
    let mut j: usize = 0;
    while j < stack.len()
        invariant
            j <= stack@.len(),
            names == stack@.map_values(|s: String| s@),
            out@ == start + joined(names.take(j as int)),
        decreases stack@.len() - j,
    {
        if j > 0 {
            push_char(&mut out, '/');
        }
        out.append(stack[j].as_str());
        proof {
            let t = names.take(j + 1);
            assert(t.drop_last() =~= names.take(j as int));
            assert(t.last() == names[j as int]);
            if j == 0 {
                assert(joined(t) == names[0]);
            }
        }
        j = j + 1;
    }
    assert(names.take(names.len() as int) =~= names);
    proof {
        if rooted {
            assert(pv[0] == Part::Root);
        } else if pv.len() > 0 {
            assert(pv[0] != Part::Root);
        }
    }
    out
}

/// `base` joined with `tail` as `PathBuf::push` does: an absolute `tail`
/// replaces `base`; otherwise it is added after a separator, unless `base`
/// is empty or already ends with one.
pub fn join(base: &str, tail: &str) -> (r: String)
    ensures
        r@ == crate::tree::join(base@, tail@),
{
    let t = tail.unicode_len();
    if t > 0 && tail.get_char(0) == '/' {
        return tail.to_owned();
    }
    let b = base.unicode_len();
    let mut out = base.to_owned();
    if b > 0 && base.get_char(b - 1) != '/' {
        push_char(&mut out, '/');
    }
    out.append(tail);
    out
}

} // verus!
