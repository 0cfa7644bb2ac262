//! Paths of Unix as texts: joining, parents and components.
use vstd::prelude::*;
use vstd::slice::slice_subrange;
use crate::text;
use crate::text::{chars_of, is, split, string_of};

verus! {

/// A path behind another: an absolute path stands alone, and otherwise one
/// slash separates the two.
pub open spec fn joined_path(base: Seq<char>, p: Seq<char>) -> Seq<char> {
    if p.len() > 0 && p[0] == '/' {
        p
    } else if base.len() == 0 || base.last() == '/' {
        base + p
    } else {
        base + seq!['/'] + p
    }
}

/// Puts a path behind another.
pub fn join_path(base: &str, p: &str) -> (r: String)
    ensures
        r@ == joined_path(base@, p@),
{
    let b = chars_of(base);
    let c = chars_of(p);
    if c.len() > 0 && c[0] == '/' {
        return string_of(c.as_slice());
    }
    let mut r = string_of(b.as_slice());
    if !(b.len() == 0 || b[b.len() - 1] == '/') {
        r.push('/');
        assert(r@ =~= base@ + seq!['/']);
    }
    r.append(p);
    r
}

/// A path without the slashes and the `.` components at its end. The root
/// stays, and so does a `.` with which the path begins.
pub open spec fn tail_stripped(s: Seq<char>) -> Seq<char>
    decreases s.len(),
{
    if s.len() >= 2 && (s.last() == '/' || (s.last() == '.' && s[s.len() - 2] == '/')) {
        tail_stripped(s.drop_last())
    } else {
        s
    }
}

/// The index at which the last component begins.
pub open spec fn last_start(s: Seq<char>) -> int
    decreases s.len(),
{
    if s.len() == 0 || s.last() == '/' {
        s.len() as int
    } else {
        last_start(s.drop_last())
    }
}

proof fn lemma_last_start(s: Seq<char>)
    ensures
        0 <= last_start(s) <= s.len(),
    decreases s.len(),
{
    if s.len() > 0 && s.last() != '/' {
        lemma_last_start(s.drop_last());
    }
}

/// The path without its last component. The root and the empty path have no
/// parent.
pub open spec fn parent_of(s: Seq<char>) -> Option<Seq<char>> {
    let t = tail_stripped(s);
    if t.len() == 0 || t == seq!['/'] {
        None
    } else {
        Some(tail_stripped(t.take(last_start(t))))
    }
}

/// The last component, where it is a name: neither the root nor `.` nor `..`.
pub open spec fn file_name_of(s: Seq<char>) -> Option<Seq<char>> {
    let t = tail_stripped(s);
    let name = t.skip(last_start(t));
    if t.len() == 0 || t == seq!['/'] || name == seq!['.'] || name == seq!['.', '.'] {
        None
    } else {
        Some(name)
    }
}

proof fn lemma_tail_stripped(s: Seq<char>)
    ensures
        tail_stripped(s).len() <= s.len(),
        tail_stripped(s).len() >= 2 ==> tail_stripped(s).last() != '/',
    decreases s.len(),
{
    if s.len() >= 2 && (s.last() == '/' || (s.last() == '.' && s[s.len() - 2] == '/')) {
        lemma_tail_stripped(s.drop_last());
    }
}

/// Stripping the end of a path twice is stripping it once.
pub proof fn lemma_stripped_once(s: Seq<char>)
    ensures
        tail_stripped(tail_stripped(s)) == tail_stripped(s),
    decreases s.len(),
{
    if s.len() >= 2 && (s.last() == '/' || (s.last() == '.' && s[s.len() - 2] == '/')) {
        lemma_stripped_once(s.drop_last());
    }
}

/// A parent is shorter than the path.
pub proof fn lemma_parent_shorter(s: Seq<char>)
    ensures
        parent_of(s) matches Some(p) ==> p.len() < s.len(),
{
    let t = tail_stripped(s);
    lemma_tail_stripped(s);
    if t.len() > 0 && t != seq!['/'] {
        if t.last() == '/' {
            assert(t =~= seq!['/']);
        }
        lemma_last_start(t.drop_last());
        lemma_tail_stripped(t.take(last_start(t)));
    }
}

/// A path, its parent, the parent of that, and so on.
pub open spec fn ancestors(s: Seq<char>) -> Seq<Seq<char>>
    decreases s.len(),
    via ancestors_decreases
{
    match parent_of(s) {
        Some(p) => seq![s] + ancestors(p),
        None => seq![s],
    }
}

#[via_fn]
proof fn ancestors_decreases(s: Seq<char>) {
    lemma_parent_shorter(s);
}

fn strip_tail(s: &[char]) -> (r: &[char])
    ensures
        r@ == tail_stripped(s@),
{
    let mut n: usize = s.len();
    assert(s@.take(n as int) =~= s@);
    while n >= 2 && (s[n - 1] == '/' || (s[n - 1] == '.' && s[n - 2] == '/'))
        invariant
            n <= s@.len(),
            tail_stripped(s@.take(n as int)) == tail_stripped(s@),
        decreases n,
    {
        assert(s@.take(n as int).drop_last() =~= s@.take(n - 1));
        n -= 1;
    }
    let r = slice_subrange(s, 0, n);
    assert(r@ =~= s@.take(n as int));
    r
}

/// The index at which the last component begins.
pub fn start_of_last(s: &[char]) -> (r: usize)
    ensures
        r == last_start(s@),
        r <= s@.len(),
{
    let mut n: usize = s.len();
    assert(s@.take(n as int) =~= s@);
    while n > 0 && s[n - 1] != '/'
        invariant
            n <= s@.len(),
            last_start(s@.take(n as int)) == last_start(s@),
        decreases n,
    {
        assert(s@.take(n as int).drop_last() =~= s@.take(n - 1));
        n -= 1;
    }
    n
}

/// The path without its last component.
pub fn parent(s: &str) -> (r: Option<String>)
    ensures
        match r {
            Some(p) => parent_of(s@) == Some(p@),
            None => parent_of(s@) is None,
        },
{
    let c = chars_of(s);
    let t = strip_tail(c.as_slice());
    if t.len() == 0 {
        return None;
    }
    if t.len() == 1 && t[0] == '/' {
        assert(t@ =~= seq!['/']);
        return None;
    }
    assert(t@ != seq!['/']) by {
        if t@ == seq!['/'] {
            assert(t@[0] == '/' && t@.len() == 1);
        }
    }
    let k: usize = start_of_last(t);
    let head = slice_subrange(t, 0, k);
    assert(head@ =~= t@.take(k as int));
    Some(string_of(strip_tail(head)))
}

/// The last component, where it is a name.
pub fn file_name(s: &str) -> (r: Option<String>)
    ensures
        match r {
            Some(p) => file_name_of(s@) == Some(p@),
            None => file_name_of(s@) is None,
        },
{
    let c = chars_of(s);
    let t = strip_tail(c.as_slice());
    if t.len() == 0 || is(t, "/") {
        proof {
            reveal_strlit("/");
            if t@.len() > 0 {
                assert(t@ =~= seq!['/']);
            }
        }
        return None;
    }
    proof {
        reveal_strlit("/");
        reveal_strlit(".");
        reveal_strlit("..");
        assert("/"@ =~= seq!['/']);
        assert("."@ =~= seq!['.']);
        assert(".."@ =~= seq!['.', '.']);
    }
    let k: usize = start_of_last(t);
    let name = slice_subrange(t, k, t.len());
    assert(name@ =~= t@.skip(k as int));
    if is(name, ".") || is(name, "..") {
        None
    } else {
        Some(string_of(name))
    }
}

proof fn lemma_tail_kept(s: Seq<char>)
    requires
        s.len() > 0,
        s.last() != '/',
        s.last() != '.',
    ensures
        tail_stripped(s) == s,
{
}

/// The last component of a text is what follows its last slash.
pub proof fn lemma_last_start_is(head: Seq<char>, name: Seq<char>)
    requires
        head.len() == 0 || head.last() == '/',
        !name.contains('/'),
    ensures
        last_start(head + name) == head.len(),
    decreases name.len(),
{
    let s = head + name;
    if name.len() == 0 {
        assert(s =~= head);
    } else {
        assert(s.last() == name.last());
        assert(name.contains(name.last()));
        let less = name.drop_last();
        assert(s.drop_last() =~= head + less);
        assert(!less.contains('/')) by {
            if less.contains('/') {
                let i = choose|i: int| 0 <= i < less.len() && less[i] == '/';
                assert(name[i] == '/');
            }
        }
        lemma_last_start_is(head, less);
    }
}

/// The file name behind a slash is the name, where that is an ordinary one.
pub proof fn lemma_file_name(head: Seq<char>, name: Seq<char>)
    requires
        head.len() > 0,
        head.last() == '/',
        name.len() > 0,
        !name.contains('/'),
        name[0] != '.',
    ensures
        file_name_of(head + name) == Some(name),
{
    let s = head + name;
    assert(s.last() == name.last());
    assert(name.contains(name.last()));
    assert(tail_stripped(s) == s) by {
        if s.last() == '.' && s[s.len() - 2] == '/' {
            if name.len() == 1 {
                assert(name[0] == '.');
            } else {
                assert(s[s.len() - 2] == name[name.len() - 2]);
                assert(name.contains(name[name.len() - 2]));
            }
        }
    }
    lemma_last_start_is(head, name);
    assert(s.skip(head.len() as int) =~= name);
}

/// The parent of a path with a name behind it is that path, where it has
/// neither a slash nor a `.` component at its end.
pub proof fn lemma_parent_of_child(dir: Seq<char>, name: Seq<char>)
    requires
        dir.len() > 0,
        tail_stripped(dir) == dir,
        dir.last() != '/',
        name.len() > 0,
        !name.contains('/'),
        name.last() != '.',
    ensures
        parent_of(dir + seq!['/'] + name) == Some(dir),
{
    let head = dir + seq!['/'];
    let s = head + name;
    assert(s.last() == name.last());
    assert(name.contains(name.last()));
    lemma_tail_kept(s);
    lemma_last_start_is(head, name);
    assert(s.take(head.len() as int) =~= head);
    assert(head.drop_last() =~= dir);
    assert(tail_stripped(head) == tail_stripped(dir));
}

/// A component of a path.
pub enum Part {
    Root,
    Cur,
    Up,
    Name(Seq<char>),
}

/// A component of a path, in executable code.
pub enum Component {
    RootDir,
    CurDir,
    ParentDir,
    Normal(String),
}

impl View for Component {
    type V = Part;

    open spec fn view(&self) -> Part {
        match self {
            Component::RootDir => Part::Root,
            Component::CurDir => Part::Cur,
            Component::ParentDir => Part::Up,
            Component::Normal(s) => Part::Name(s@),
        }
    }
}

/// The components that the text between two slashes gives: none for nothing,
/// and for `.` only where the path begins with it.
pub open spec fn part_of(seg: Seq<char>, first: bool) -> Seq<Part> {
    if seg.len() == 0 {
        Seq::empty()
    } else if seg == seq!['.'] {
        if first {
            seq![Part::Cur]
        } else {
            Seq::empty()
        }
    } else if seg == seq!['.', '.'] {
        seq![Part::Up]
    } else {
        seq![Part::Name(seg)]
    }
}

/// The components that the texts between the slashes give.
pub open spec fn parts_of(segs: Seq<Seq<char>>) -> Seq<Part>
    decreases segs.len(),
{
    if segs.len() == 0 {
        Seq::empty()
    } else {
        parts_of(segs.drop_last()) + part_of(segs.last(), segs.len() == 1)
    }
}

/// The components of a path. Two paths are the same where their components
/// are.
#[verifier::opaque]
pub open spec fn parts(s: Seq<char>) -> Seq<Part> {
    (if s.len() > 0 && s[0] == '/' {
        seq![Part::Root]
    } else {
        Seq::empty()
    }) + parts_of(text::split_parts(s, '/'))
}

/// The components of a list.
pub open spec fn part_views(list: Seq<Component>) -> Seq<Part> {
    list.map_values(|c: Component| c@)
}

/// The components of a path.
pub fn components(s: &str) -> (r: Vec<Component>)
    ensures
        part_views(r@) == parts(s@),
{
    let c = chars_of(s);
    let mut r: Vec<Component> = Vec::new();
    if c.len() > 0 && c[0] == '/' {
        r.push(Component::RootDir);
        assert(part_views(r@) =~= seq![Part::Root]);
    } else {
        assert(part_views(r@) =~= Seq::<Part>::empty());
    }
    let ghost root = part_views(r@);
    let segs = split(c.as_slice(), '/');
    let ghost all = text::slice_views(segs@);
    proof {
        reveal_strlit(".");
        reveal_strlit("..");
        assert("."@ =~= seq!['.']);
        assert(".."@ =~= seq!['.', '.']);
        assert(root + parts_of(all.take(0)) =~= root);
    }
    let mut i: usize = 0;
    while i < segs.len()
        invariant
            i <= segs@.len(),
            all == text::slice_views(segs@),
            "."@ == seq!['.'],
            ".."@ == seq!['.', '.'],
            part_views(r@) == root + parts_of(all.take(i as int)),
        decreases segs@.len() - i,
    {
        let ghost before = part_views(r@);
        let seg = segs[i];
        assert(all.take(i + 1).drop_last() =~= all.take(i as int));
        assert(all.take(i + 1).last() == seg@);
        if seg.len() == 0 {
            assert(part_views(r@) =~= before + part_of(seg@, i == 0));
        } else if is(seg, ".") {
            if i == 0 {
                r.push(Component::CurDir);
            }
            assert(part_views(r@) =~= before + part_of(seg@, i == 0));
        } else if is(seg, "..") {
            r.push(Component::ParentDir);
            assert(part_views(r@) =~= before + part_of(seg@, i == 0));
        } else {
            r.push(Component::Normal(string_of(seg)));
            assert(part_views(r@) =~= before + part_of(seg@, i == 0));
        }
        assert((root + parts_of(all.take(i as int))) + part_of(seg@, i == 0) =~= root + (parts_of(
            all.take(i as int),
        ) + part_of(seg@, i == 0)));
        i += 1;
    }
    assert(all.take(i as int) =~= all);
    assert(part_views(r@) == parts(s@)) by {
        reveal(parts);
    }
    r
}

/// Whether a text comes before another: character by character.
pub open spec fn text_before(a: Seq<char>, b: Seq<char>) -> bool
    decreases a.len(),
{
    if b.len() == 0 {
        false
    } else if a.len() == 0 {
        true
    } else {
        a[0] < b[0] || (a[0] == b[0] && text_before(a.skip(1), b.skip(1)))
    }
}

pub open spec fn rank(p: Part) -> int {
    match p {
        Part::Root => 0,
        Part::Cur => 1,
        Part::Up => 2,
        Part::Name(_) => 3,
    }
}

/// Whether a component comes before another: the root, then `.`, then `..`,
/// then the names in their order.
pub open spec fn part_before(a: Part, b: Part) -> bool {
    rank(a) < rank(b) || match (a, b) {
        (Part::Name(x), Part::Name(y)) => text_before(x, y),
        _ => false,
    }
}

/// Whether a path comes before another: component by component.
#[verifier::opaque]
pub open spec fn parts_before(a: Seq<Part>, b: Seq<Part>) -> bool
    decreases a.len(),
{
    if b.len() == 0 {
        false
    } else if a.len() == 0 {
        true
    } else {
        part_before(a[0], b[0]) || (a[0] == b[0] && parts_before(a.skip(1), b.skip(1)))
    }
}

/// Texts are ordered totally.
pub proof fn lemma_text_total(a: Seq<char>, b: Seq<char>)
    ensures
        text_before(a, b) || a == b || text_before(b, a),
        !(text_before(a, b) && text_before(b, a)),
        !text_before(a, a),
    decreases a.len(),
{
    if a.len() > 0 {
        lemma_text_total(a.skip(1), a.skip(1));
        if b.len() > 0 && a[0] == b[0] {
            lemma_text_total(a.skip(1), b.skip(1));
            if a.skip(1) == b.skip(1) {
                assert(a =~= seq![a[0]] + a.skip(1));
                assert(b =~= seq![b[0]] + b.skip(1));
            }
        }
    } else if b.len() == 0 {
        assert(a =~= b);
    }
}

/// The order of texts is transitive.
pub proof fn lemma_text_transitive(a: Seq<char>, b: Seq<char>, c: Seq<char>)
    requires
        text_before(a, b),
        text_before(b, c),
    ensures
        text_before(a, c),
    decreases a.len(),
{
    if a.len() > 0 && a[0] == b[0] && b[0] == c[0] {
        lemma_text_transitive(a.skip(1), b.skip(1), c.skip(1));
    }
}

proof fn lemma_part_total(a: Part, b: Part)
    ensures
        part_before(a, b) || a == b || part_before(b, a),
        !(part_before(a, b) && part_before(b, a)),
        !part_before(a, a),
{
    match (a, b) {
        (Part::Name(x), Part::Name(y)) => {
            lemma_text_total(x, y);
        },
        _ => {},
    }
    match a {
        Part::Name(x) => {
            lemma_text_total(x, x);
        },
        _ => {},
    }
}

proof fn lemma_part_transitive(a: Part, b: Part, c: Part)
    requires
        part_before(a, b),
        part_before(b, c),
    ensures
        part_before(a, c),
{
    match (a, b, c) {
        (Part::Name(x), Part::Name(y), Part::Name(z)) => {
            lemma_text_transitive(x, y, z);
        },
        _ => {},
    }
}

/// Paths are ordered totally.
pub proof fn lemma_parts_total(a: Seq<Part>, b: Seq<Part>)
    ensures
        parts_before(a, b) || a == b || parts_before(b, a),
        !(parts_before(a, b) && parts_before(b, a)),
        !parts_before(a, a),
    decreases a.len(),
{
    reveal_with_fuel(parts_before, 2);
    if a.len() > 0 {
        lemma_part_total(a[0], a[0]);
        lemma_parts_total(a.skip(1), a.skip(1));
        if b.len() > 0 {
            lemma_part_total(a[0], b[0]);
            if a[0] == b[0] {
                lemma_parts_total(a.skip(1), b.skip(1));
                if a.skip(1) == b.skip(1) {
                    assert(a =~= seq![a[0]] + a.skip(1));
                    assert(b =~= seq![b[0]] + b.skip(1));
                }
            }
        }
    } else if b.len() == 0 {
        assert(a =~= b);
    }
}

/// The order of paths is transitive.
pub proof fn lemma_parts_transitive(a: Seq<Part>, b: Seq<Part>, c: Seq<Part>)
    requires
        parts_before(a, b),
        parts_before(b, c),
    ensures
        parts_before(a, c),
    decreases a.len(),
{
    reveal_with_fuel(parts_before, 2);
    if a.len() > 0 {
        if part_before(a[0], b[0]) && part_before(b[0], c[0]) {
            lemma_part_transitive(a[0], b[0], c[0]);
        } else if a[0] == b[0] && b[0] == c[0] {
            if part_before(a[0], b[0]) || part_before(b[0], c[0]) {
            } else {
                lemma_parts_transitive(a.skip(1), b.skip(1), c.skip(1));
            }
        }
    }
}

/// How two things stand to each other.
#[derive(PartialEq, Eq, Structural)]
pub enum Rel {
    Before,
    Same,
    After,
}

/// How two texts stand to each other.
pub fn relate_text(a: &[char], b: &[char]) -> (r: Rel)
    ensures
        r == Rel::Before <==> text_before(a@, b@),
        r == Rel::Same <==> a@ == b@,
        r == Rel::After <==> text_before(b@, a@),
{
    let mut i: usize = 0;
    assert(a@.skip(0) =~= a@);
    assert(b@.skip(0) =~= b@);
    while i < a.len() && i < b.len() && a[i] == b[i]
        invariant
            i <= a@.len(),
            i <= b@.len(),
            forall|j: int| 0 <= j < i ==> a@[j] == b@[j],
            text_before(a@.skip(i as int), b@.skip(i as int)) == text_before(a@, b@),
            text_before(b@.skip(i as int), a@.skip(i as int)) == text_before(b@, a@),
        decreases a@.len() - i,
    {
        assert(a@.skip(i as int).skip(1) =~= a@.skip(i + 1));
        assert(b@.skip(i as int).skip(1) =~= b@.skip(i + 1));
        i += 1;
    }
    proof {
        lemma_text_total(a@, b@);
    }
    if i == b.len() {
        if i == a.len() {
            assert(a@ =~= b@);
            Rel::Same
        } else {
            Rel::After
        }
    } else if i == a.len() || a[i] < b[i] {
        Rel::Before
    } else {
        Rel::After
    }
}

fn component_rank(c: &Component) -> (r: u8)
    ensures
        r == rank(c@),
{
    match c {
        Component::RootDir => 0,
        Component::CurDir => 1,
        Component::ParentDir => 2,
        Component::Normal(_) => 3,
    }
}

fn relate_component(a: &Component, b: &Component) -> (r: Rel)
    ensures
        r == Rel::Before <==> part_before(a@, b@),
        r == Rel::Same <==> a@ == b@,
        r == Rel::After <==> part_before(b@, a@),
{
    proof {
        lemma_part_total(a@, b@);
    }
    match (a, b) {
        (Component::Normal(x), Component::Normal(y)) => {
            let x = chars_of(x.as_str());
            let y = chars_of(y.as_str());
            relate_text(x.as_slice(), y.as_slice())
        },
        _ => {
            let ra: u8 = component_rank(a);
            let rb: u8 = component_rank(b);
            if ra < rb {
                Rel::Before
            } else if ra == rb {
                Rel::Same
            } else {
                Rel::After
            }
        },
    }
}

fn relate_components(a: &Vec<Component>, b: &Vec<Component>) -> (r: Rel)
    ensures
        r == Rel::Before <==> parts_before(part_views(a@), part_views(b@)),
        r == Rel::Same <==> part_views(a@) == part_views(b@),
        r == Rel::After <==> parts_before(part_views(b@), part_views(a@)),
{
    let ghost pa = part_views(a@);
    let ghost pb = part_views(b@);
    let mut i: usize = 0;
    assert(pa.skip(0) =~= pa);
    assert(pb.skip(0) =~= pb);
    proof {
        reveal_with_fuel(parts_before, 2);
        lemma_parts_total(pa, pb);
    }
    while i < a.len() && i < b.len()
        invariant
            i <= a@.len(),
            i <= b@.len(),
            pa == part_views(a@),
            pb == part_views(b@),
            forall|j: int| 0 <= j < i ==> pa[j] == pb[j],
            parts_before(pa.skip(i as int), pb.skip(i as int)) == parts_before(pa, pb),
            parts_before(pb.skip(i as int), pa.skip(i as int)) == parts_before(pb, pa),
            !(parts_before(pa, pb) && parts_before(pb, pa)),
        decreases a@.len() - i,
    {
        proof {
            reveal_with_fuel(parts_before, 2);
        }
        assert(pa.skip(i as int).skip(1) =~= pa.skip(i + 1));
        assert(pb.skip(i as int).skip(1) =~= pb.skip(i + 1));
        assert(pa[i as int] == a@[i as int]@);
        assert(pb[i as int] == b@[i as int]@);
        let rel = relate_component(&a[i], &b[i]);
        if rel != Rel::Same {
            assert(pa != pb);
            return rel;
        }
        i += 1;
    }
    if i == b.len() {
        if i == a.len() {
            assert(pa =~= pb);
            Rel::Same
        } else {
            Rel::After
        }
    } else {
        Rel::Before
    }
}

/// How two paths stand to each other in the order of paths.
pub fn relate_paths(a: &str, b: &str) -> (r: Rel)
    ensures
        r == Rel::Before <==> parts_before(parts(a@), parts(b@)),
        r == Rel::Same <==> parts(a@) == parts(b@),
        r == Rel::After <==> parts_before(parts(b@), parts(a@)),
{
    relate_components(&components(a), &components(b))
}

/// Whether a path lies at or below another: the components of the other are
/// its first ones.
pub open spec fn lies_under(p: Seq<char>, base: Seq<char>) -> bool {
    parts(base).len() <= parts(p).len() && parts(p).take(parts(base).len() as int) == parts(base)
}

/// Whether a path lies at or below another.
pub fn is_under(p: &str, base: &str) -> (r: bool)
    ensures
        r == lies_under(p@, base@),
{
    let a = components(p);
    let b = components(base);
    if b.len() > a.len() {
        return false;
    }
    let ghost pa = part_views(a@);
    let ghost pb = part_views(b@);
    let mut i: usize = 0;
    while i < b.len()
        invariant
            i <= b@.len() <= a@.len(),
            pa == part_views(a@),
            pb == part_views(b@),
            pa == parts(p@),
            pb == parts(base@),
            forall|j: int| 0 <= j < i ==> pa[j] == pb[j],
        decreases b@.len() - i,
    {
        assert(pa[i as int] == a@[i as int]@);
        assert(pb[i as int] == b@[i as int]@);
        if relate_component(&a[i], &b[i]) != Rel::Same {
            assert(pa.take(pb.len() as int)[i as int] != pb[i as int]);
            return false;
        }
        i += 1;
    }
    assert(pa.take(pb.len() as int) =~= pb);
    true
}

/// A relative path behind another is reached from there, with one slash between
/// the two; an absolute one stands for itself.
pub proof fn law_joined_path(base: Seq<char>, p: Seq<char>)
    ensures
        p.len() > 0 && p[0] == '/' ==> joined_path(base, p) == p,
        base.len() > 0 && base.last() != '/' && (p.len() == 0 || p[0] != '/') ==> joined_path(
            base,
            p,
        ) == base + seq!['/'] + p,
        base.len() > 0 && base.last() == '/' && (p.len() == 0 || p[0] != '/') ==> joined_path(
            base,
            p,
        ) == base + p,
        base.len() == 0 ==> joined_path(base, p) == p,
{
    assert(base.len() == 0 ==> base + p =~= p);
}

/// A name behind a path is one component more, and the components in front of
/// it are those of the path.
pub proof fn law_child_parts(dir: Seq<char>, name: Seq<char>)
    requires
        dir.len() > 0,
        name.len() > 0,
        !name.contains('/'),
        name != seq!['.'],
        name != seq!['.', '.'],
    ensures
        parts(dir + seq!['/'] + name) == parts(dir).push(Part::Name(name)),
        lies_under(dir + seq!['/'] + name, dir),
        !lies_under(dir, dir + seq!['/'] + name),
{
    reveal(parts);
    let s = dir + seq!['/'] + name;
    text::lemma_split_last(dir, '/', name);
    let segs = text::split_parts(dir, '/');
    text::lemma_index_of(dir, '/');
    assert(segs.len() > 0);
    let all = segs.push(name);
    assert(all.drop_last() =~= segs);
    assert(s[0] == dir[0]);
    assert(parts_of(all) =~= parts_of(segs).push(Part::Name(name)));
    assert(parts(s) =~= parts(dir).push(Part::Name(name)));
    assert(parts(s).take(parts(dir).len() as int) =~= parts(dir));
}

/// What lies below a path lies below whatever that path lies below, and every
/// path lies below itself. Two names below one path are not below each other
/// unless they are the same, whatever their letters have in common.
pub proof fn law_lies_under(a: Seq<char>, b: Seq<char>, c: Seq<char>)
    ensures
        lies_under(a, a),
        lies_under(a, b) && lies_under(b, c) ==> lies_under(a, c),
        lies_under(a, b) && lies_under(b, a) ==> parts(a) == parts(b),
{
    assert(parts(a).take(parts(a).len() as int) =~= parts(a));
    if lies_under(a, b) && lies_under(b, c) {
        let n = parts(c).len() as int;
        assert(parts(a).take(n) =~= parts(a).take(parts(b).len() as int).take(n));
    }
    if lies_under(a, b) && lies_under(b, a) {
        assert(parts(a).take(parts(b).len() as int) =~= parts(a));
    }
}

/// Names in one directory lie apart.
pub proof fn law_siblings_apart(dir: Seq<char>, a: Seq<char>, b: Seq<char>)
    requires
        dir.len() > 0,
        a.len() > 0 && !a.contains('/') && a != seq!['.'] && a != seq!['.', '.'],
        b.len() > 0 && !b.contains('/') && b != seq!['.'] && b != seq!['.', '.'],
    ensures
        lies_under(dir + seq!['/'] + a, dir + seq!['/'] + b) <==> a == b,
{
    law_child_parts(dir, a);
    law_child_parts(dir, b);
    let pa = parts(dir + seq!['/'] + a);
    let pb = parts(dir + seq!['/'] + b);
    let n = parts(dir).len() as int;
    assert(pa.take(pb.len() as int) =~= pa);
    assert(pa[n] == Part::Name(a) && pb[n] == Part::Name(b));
}

/// Slashes at the end of a path change neither its parent nor its name.
pub proof fn law_slash_at_end(s: Seq<char>)
    requires
        s.len() > 0,
    ensures
        parent_of(s.push('/')) == parent_of(s),
        file_name_of(s.push('/')) == file_name_of(s),
{
    assert(s.push('/').drop_last() =~= s);
    assert(tail_stripped(s.push('/')) == tail_stripped(s));
}

/// A name alone stands in the empty path, a name below the root in the root,
/// and neither the root nor the empty path has a parent or a name.
pub proof fn law_shortest_paths(name: Seq<char>)
    requires
        name.len() > 0,
        !name.contains('/'),
        name[0] != '.',
        name.last() != '.',
    ensures
        parent_of(name) == Some(Seq::<char>::empty()),
        file_name_of(name) == Some(name),
        parent_of(seq!['/'] + name) == Some(seq!['/']),
        file_name_of(seq!['/'] + name) == Some(name),
        parent_of(seq!['/']) is None,
        file_name_of(seq!['/']) is None,
        parent_of(Seq::empty()) is None,
        file_name_of(Seq::empty()) is None,
{
    let nothing = Seq::<char>::empty();
    let root = seq!['/'];
    assert(name.contains(name.last()));
    lemma_tail_kept(name);
    assert(nothing + name =~= name);
    lemma_last_start_is(nothing, name);
    assert(name.take(0) =~= nothing);
    assert(name.skip(0) =~= name);
    assert(name != seq!['.'] && name != seq!['.', '.']);
    assert(name != root) by {
        if name == root {
            assert(name.contains('/'));
        }
    }
    lemma_file_name(root, name);
    let s = root + name;
    lemma_tail_kept(s);
    lemma_last_start_is(root, name);
    assert(s.take(1) =~= root);
    assert(s != root) by {
        assert(s.len() > 1);
    }
}

/// A search upwards looks at the path itself and then at one parent after the
/// other, up to a path that has none.
pub proof fn law_ancestors(s: Seq<char>)
    ensures
        ancestors(s).len() > 0,
        ancestors(s)[0] == s,
        forall|i: int|
            0 <= i < ancestors(s).len() - 1 ==> parent_of(#[trigger] ancestors(s)[i]) == Some(
                ancestors(s)[i + 1],
            ),
        parent_of(ancestors(s).last()) is None,
    decreases s.len(),
{
    lemma_parent_shorter(s);
    match parent_of(s) {
        Some(p) => {
            law_ancestors(p);
            let up = ancestors(p);
            let all = ancestors(s);
            assert forall|i: int| 0 <= i < all.len() - 1 implies parent_of(#[trigger] all[i]) == Some(
                all[i + 1],
            ) by {
                assert(all[i + 1] == up[i]);
                if i > 0 {
                    assert(all[i] == up[i - 1]);
                    assert(parent_of(up[i - 1]) == Some(up[i - 1 + 1]));
                }
            }
            assert(all.last() == up.last());
        },
        None => {},
    }
}

/// Texts are ordered by the first character in which they differ, and a text
/// comes before every longer one that begins with it.
pub proof fn law_text_order(front: Seq<char>, x: char, a: Seq<char>, y: char, b: Seq<char>)
    ensures
        x < y ==> text_before(front + seq![x] + a, front + seq![y] + b),
        x < y ==> !text_before(front + seq![y] + b, front + seq![x] + a),
        text_before(front, front + seq![x] + a),
        !text_before(front + seq![x] + a, front),
    decreases front.len(),
{
    let p = front + seq![x] + a;
    let q = front + seq![y] + b;
    if front.len() == 0 {
        assert(p[0] == x && q[0] == y);
    } else {
        let rest = front.skip(1);
        law_text_order(rest, x, a, y, b);
        assert(p.skip(1) =~= rest + seq![x] + a);
        assert(q.skip(1) =~= rest + seq![y] + b);
        assert(p[0] == front[0] && q[0] == front[0]);
    }
}

/// Paths are ordered by the first component in which they differ, a path comes
/// before what lies below it, and names are ordered as texts.
pub proof fn law_path_order(front: Seq<Part>, x: Seq<char>, a: Seq<Part>, y: Seq<char>, b: Seq<Part>)
    ensures
        text_before(x, y) ==> parts_before(
            front + seq![Part::Name(x)] + a,
            front + seq![Part::Name(y)] + b,
        ),
        parts_before(front, front + seq![Part::Name(x)] + a),
        parts_before(front + seq![Part::Up] + a, front + seq![Part::Name(y)] + b),
        parts_before(front + seq![Part::Cur] + a, front + seq![Part::Up] + b),
        parts_before(front + seq![Part::Root] + a, front + seq![Part::Cur] + b),
    decreases front.len(),
{
    reveal_with_fuel(parts_before, 2);
    if front.len() > 0 {
        let rest = front.skip(1);
        law_path_order(rest, x, a, y, b);
        assert((front + seq![Part::Name(x)] + a).skip(1) =~= rest + seq![Part::Name(x)] + a);
        assert((front + seq![Part::Name(y)] + b).skip(1) =~= rest + seq![Part::Name(y)] + b);
        assert((front + seq![Part::Up] + a).skip(1) =~= rest + seq![Part::Up] + a);
        assert((front + seq![Part::Up] + b).skip(1) =~= rest + seq![Part::Up] + b);
        assert((front + seq![Part::Cur] + a).skip(1) =~= rest + seq![Part::Cur] + a);
        assert((front + seq![Part::Cur] + b).skip(1) =~= rest + seq![Part::Cur] + b);
        assert((front + seq![Part::Root] + a).skip(1) =~= rest + seq![Part::Root] + a);
    }
}

/// What is no name in a path: slashes and single dots behind others count for
/// nothing, two dots are a component of their own, and a path that begins with a
/// slash begins with the root.
pub proof fn law_dots_and_slashes(dir: Seq<char>)
    requires
        dir.len() > 0,
    ensures
        parts(dir.push('/')) == parts(dir),
        parts(dir + seq!['/', '.']) == parts(dir),
        parts(dir + seq!['/', '.', '.']) == parts(dir).push(Part::Up),
        dir[0] == '/' ==> parts(dir).len() > 0 && parts(dir)[0] == Part::Root,
        parts(seq!['.']) == seq![Part::Cur],
        parts(Seq::empty()) == Seq::<Part>::empty(),
{
    reveal(parts);
    let nothing = Seq::<char>::empty();
    let dot = seq!['.'];
    let up = seq!['.', '.'];
    assert(!dot.contains('/') && !up.contains('/') && !nothing.contains('/'));
    let segs = text::split_parts(dir, '/');
    text::lemma_index_of(dir, '/');
    assert(segs.len() > 0);
    lemma_one_more(dir, nothing);
    lemma_one_more(dir, dot);
    lemma_one_more(dir, up);
    assert(dir + seq!['/'] + nothing =~= dir.push('/'));
    assert(dir + seq!['/'] + dot =~= dir + seq!['/', '.']);
    assert(dir + seq!['/'] + up =~= dir + seq!['/', '.', '.']);
    assert(parts(dir) + Seq::<Part>::empty() =~= parts(dir));
    assert(parts(dir) + seq![Part::Up] =~= parts(dir).push(Part::Up));
    text::lemma_split_none(dot, '/');
    text::lemma_split_none(nothing, '/');
    assert(seq![dot].drop_last() =~= Seq::<Seq<char>>::empty());
    assert(seq![nothing].drop_last() =~= Seq::<Seq<char>>::empty());
    assert(parts_of(Seq::<Seq<char>>::empty()) =~= Seq::<Part>::empty());
    assert(parts_of(seq![dot]) =~= seq![Part::Cur]);
    assert(parts_of(seq![nothing]) =~= Seq::<Part>::empty());
    assert(parts(dot) =~= seq![Part::Cur]);
    assert(parts(nothing) =~= Seq::<Part>::empty());
}

proof fn lemma_one_more(dir: Seq<char>, seg: Seq<char>)
    requires
        dir.len() > 0,
        !seg.contains('/'),
    ensures
        parts(dir + seq!['/'] + seg) == parts(dir) + part_of(seg, false),
{
    reveal(parts);
    let s = dir + seq!['/'] + seg;
    text::lemma_split_last(dir, '/', seg);
    let segs = text::split_parts(dir, '/');
    text::lemma_index_of(dir, '/');
    let all = segs.push(seg);
    assert(all.drop_last() =~= segs);
    assert(s[0] == dir[0]);
    assert(parts(s) =~= parts(dir) + part_of(seg, false));
}

} // verus!
