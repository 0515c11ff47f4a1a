//! Unix paths as text, and the component view of them that the deletion
//! guards compare.
//!
//! A path is a `/`-separated string. Its components follow the rules that
//! `std::path::Path::components` documents: repeated separators are ignored,
//! `.` is normalized away except at the start of a relative path, a trailing
//! separator is ignored, and `..` is a parent-directory component.
use std::path::{Component, Path};
use vstd::prelude::*;

verus! {

/// One component of a path, as the deletion guards see it.
#[derive(Debug, Clone, PartialEq, Eq)]
pub enum PathPart {
    RootDir,
    CurDir,
    ParentDir,
    Normal(String),
}

/// The mathematical value of a [`PathPart`].
pub enum PartView {
    RootDir,
    CurDir,
    ParentDir,
    Normal(Seq<char>),
}

impl View for PathPart {
    type V = PartView;

    open spec fn view(&self) -> PartView {
        match self {
            PathPart::RootDir => PartView::RootDir,
            PathPart::CurDir => PartView::CurDir,
            PathPart::ParentDir => PartView::ParentDir,
            PathPart::Normal(s) => PartView::Normal(s@),
        }
    }
}

/// The pieces of `s` between `/` separators, empty pieces included.
pub open spec fn split_on_slash(s: Seq<char>) -> Seq<Seq<char>>
    decreases s.len(),
{
    if s.len() == 0 {
        seq![Seq::<char>::empty()]
    } else if s.last() == '/' {
        split_on_slash(s.drop_last()).push(Seq::<char>::empty())
    } else {
        let pieces = split_on_slash(s.drop_last());
        pieces.update(pieces.len() - 1, pieces.last().push(s.last()))
    }
}

/// A piece that names something: neither empty nor `.`.
pub open spec fn is_named_piece(piece: Seq<char>) -> bool {
    piece.len() != 0 && piece != seq!['.']
}

/// The component that a named piece stands for.
pub open spec fn piece_part(piece: Seq<char>) -> PartView {
    if piece == seq!['.', '.'] {
        PartView::ParentDir
    } else {
        PartView::Normal(piece)
    }
}

/// The components of the pieces, with empty pieces and `.` dropped.
pub open spec fn named_parts(pieces: Seq<Seq<char>>) -> Seq<PartView> {
    pieces.filter(|p: Seq<char>| is_named_piece(p)).map_values(|p: Seq<char>| piece_part(p))
}

/// Whether the path text starts at the filesystem root.
pub open spec fn has_root(s: Seq<char>) -> bool {
    s.len() > 0 && s[0] == '/'
}

/// The components of the path `s`.
pub open spec fn components(s: Seq<char>) -> Seq<PartView> {
    let pieces = split_on_slash(s);
    if has_root(s) {
        seq![PartView::RootDir] + named_parts(pieces)
    } else if pieces[0] == seq!['.'] {
        seq![PartView::CurDir] + named_parts(pieces.drop_first())
    } else {
        named_parts(pieces)
    }
}

/// Whether a component list begins at the root: an absolute path.
pub open spec fn parts_absolute(parts: Seq<PartView>) -> bool {
    parts.len() > 0 && parts[0] == PartView::RootDir
}

/// Whether a component list holds a `..`.
pub open spec fn parts_climb(parts: Seq<PartView>) -> bool {
    exists|i: int| 0 <= i < parts.len() && parts[i] == PartView::ParentDir
}

/// Whether a path made of these components has no parent: it is empty or
/// ends at the root.
pub open spec fn parts_without_parent(parts: Seq<PartView>) -> bool {
    parts.len() == 0 || parts.last() == PartView::RootDir
}

/// Whether the path `base` is a whole-component prefix of the path `path`.
pub open spec fn path_starts_with(path: Seq<char>, base: Seq<char>) -> bool {
    components(base).is_prefix_of(components(path))
}

/// Whether two paths name the same components.
pub open spec fn path_eq(a: Seq<char>, b: Seq<char>) -> bool {
    components(a) == components(b)
}

proof fn lemma_absolute_iff_root(s: Seq<char>)
    ensures
        parts_absolute(components(s)) <==> has_root(s),
{
    let pieces = split_on_slash(s);
    let named = pieces.filter(|p: Seq<char>| is_named_piece(p));
    if !has_root(s) {
        if pieces[0] == seq!['.'] {
            assert((seq![PartView::CurDir] + named_parts(pieces.drop_first()))[0] == PartView::CurDir);
        } else if named.len() > 0 {
            assert(named_parts(pieces)[0] == piece_part(named[0]));
        }
    } else {
        assert((seq![PartView::RootDir] + named_parts(pieces))[0] == PartView::RootDir);
    }
}

/// The components of `path`, from `std::path::Path::components`.
///
/// Trusted: the contract claims that std splits a Unix path exactly as
/// [`components`] states, which is what the documentation of
/// `Path::components` describes. `Component::Prefix` never occurs on Unix.
#[verifier::external_body]
fn std_components(path: &str) -> (parts: Vec<PathPart>)
    ensures
        parts@.map_values(|p: PathPart| p@) == components(path@),
{
    let mut parts = Vec::new();
    for c in Path::new(path).components() {
        parts.push(match c {
            Component::RootDir => PathPart::RootDir,
            Component::CurDir => PathPart::CurDir,
            Component::ParentDir => PathPart::ParentDir,
            Component::Normal(n) => PathPart::Normal(n.to_string_lossy().into_owned()),
            Component::Prefix(p) => PathPart::Normal(p.as_os_str().to_string_lossy().into_owned()),
        });
    }
    parts
}

/// The component view of `path`.
pub fn path_parts(path: &str) -> (parts: Vec<PathPart>)
    ensures
        parts@.map_values(|p: PathPart| p@) == components(path@),
{
    std_components(path)
}

/// Whether two components are the same.
pub fn same_part(a: &PathPart, b: &PathPart) -> (r: bool)
    ensures
        r == (a@ == b@),
{
    match (a, b) {
        (PathPart::RootDir, PathPart::RootDir) => true,
        (PathPart::CurDir, PathPart::CurDir) => true,
        (PathPart::ParentDir, PathPart::ParentDir) => true,
        (PathPart::Normal(x), PathPart::Normal(y)) => {
            let same: bool = *x == *y;
            same
        },
        _ => false,
    }
}

/// Whether `base` is a prefix of `parts`, component by component.
pub fn parts_start_with(parts: &Vec<PathPart>, base: &Vec<PathPart>) -> (r: bool)
    ensures
        r == base@.map_values(|p: PathPart| p@).is_prefix_of(parts@.map_values(|p: PathPart| p@)),
{
    let ghost pv = parts@.map_values(|p: PathPart| p@);
    let ghost bv = base@.map_values(|p: PathPart| p@);
    if base.len() > parts.len() {
        return false;
    }
    let mut i: usize = 0;
    while i < base.len()
        invariant
            i <= base.len() <= parts.len(),
            pv == parts@.map_values(|p: PathPart| p@),
            bv == base@.map_values(|p: PathPart| p@),
            forall|j: int| 0 <= j < i ==> bv[j] == pv[j],
        decreases base.len() - i,
    {
        if !same_part(&base[i], &parts[i]) {
            assert(bv[i as int] != pv[i as int]);
            return false;
        }
        i = i + 1;
    }
    true
}

/// Whether two component lists are equal.
pub fn parts_equal(a: &Vec<PathPart>, b: &Vec<PathPart>) -> (r: bool)
    ensures
        r == (a@.map_values(|p: PathPart| p@) == b@.map_values(|p: PathPart| p@)),
{
    let ghost av = a@.map_values(|p: PathPart| p@);
    let ghost bv = b@.map_values(|p: PathPart| p@);
    if a.len() != b.len() {
        assert(av.len() != bv.len());
        return false;
    }
    let r = parts_start_with(a, b);
    proof {
        if r {
            assert(av =~= bv);
        }
    }
    r
}

/// Whether `path` starts with `base`, comparing whole components.
pub fn starts_with(path: &str, base: &str) -> (r: bool)
    ensures
        r == path_starts_with(path@, base@),
{
    let p = path_parts(path);
    let b = path_parts(base);
    parts_start_with(&p, &b)
}

/// Whether the paths `a` and `b` have the same components.
pub fn same_path(a: &str, b: &str) -> (r: bool)
    ensures
        r == path_eq(a@, b@),
{
    let pa = path_parts(a);
    let pb = path_parts(b);
    parts_equal(&pa, &pb)
}

/// Whether `path` is absolute: on Unix, whether it starts at the root.
pub fn is_absolute(path: &str) -> (r: bool)
    ensures
        r == has_root(path@),
        r == parts_absolute(components(path@)),
{
    proof {
        lemma_absolute_iff_root(path@);
    }
    let parts = path_parts(path);
    let ghost pv = parts@.map_values(|p: PathPart| p@);
    if parts.len() == 0 {
        return false;
    }
    assert(pv[0] == parts@[0]@);
    match &parts[0] {
        PathPart::RootDir => true,
        _ => false,
    }
}

/// Whether `path` holds a `..` component.
pub fn has_parent_dir_part(path: &str) -> (r: bool)
    ensures
        r == parts_climb(components(path@)),
{
    let parts = path_parts(path);
    let ghost pv = parts@.map_values(|p: PathPart| p@);
    let mut i: usize = 0;
    while i < parts.len()
        invariant
            i <= parts.len(),
            pv == parts@.map_values(|p: PathPart| p@),
            pv == components(path@),
            forall|j: int| 0 <= j < i ==> pv[j] != PartView::ParentDir,
        decreases parts.len() - i,
    {
        assert(pv[i as int] == parts@[i as int]@);
        match &parts[i] {
            PathPart::ParentDir => {
                return true;
            },
            _ => {},
        }
        i = i + 1;
    }
    false
}

/// Whether `path` has no parent: it is empty or ends at the root.
pub fn has_no_parent(path: &str) -> (r: bool)
    ensures
        r == parts_without_parent(components(path@)),
{
    let parts = path_parts(path);
    let ghost pv = parts@.map_values(|p: PathPart| p@);
    let n = parts.len();
    if n == 0 {
        return true;
    }
    assert(pv[n - 1] == parts@[n - 1]@);
    match &parts[n - 1] {
        PathPart::RootDir => true,
        _ => false,
    }
}

/// A name that is one plain path component: not empty, free of `/`, and
/// neither `.` nor `..`, as the entries of a directory read from disk are.
pub open spec fn plain_name(n: Seq<char>) -> bool {
    n.len() > 0 && !n.contains('/') && n != seq!['.'] && n != seq!['.', '.']
}

/// Every name of `names` is plain.
pub open spec fn all_plain(names: Seq<Seq<char>>) -> bool {
    forall|i: int| 0 <= i < names.len() ==> plain_name(#[trigger] names[i])
}

/// The relative path of `names`, joined by `/`.
pub open spec fn joined(names: Seq<Seq<char>>) -> Seq<char>
    decreases names.len(),
{
    if names.len() == 0 {
        Seq::empty()
    } else if names.len() == 1 {
        names[0]
    } else {
        joined(names.drop_last()) + seq!['/'] + names.last()
    }
}

proof fn lemma_split_nonempty(s: Seq<char>)
    ensures
        split_on_slash(s).len() >= 1,
    decreases s.len(),
{
    if s.len() > 0 {
        lemma_split_nonempty(s.drop_last());
    }
}

/// Text free of `/` only extends the last piece.
proof fn lemma_split_append_plain(x: Seq<char>, w: Seq<char>)
    requires
        !w.contains('/'),
    ensures
        split_on_slash(x + w) == split_on_slash(x).update(
            split_on_slash(x).len() - 1,
            split_on_slash(x).last() + w,
        ),
    decreases w.len(),
{
    lemma_split_nonempty(x);
    let q = split_on_slash(x);
    if w.len() == 0 {
        assert(x + w =~= x);
        assert(q.last() + w =~= q.last());
        assert(q.update(q.len() - 1, q.last()) =~= q);
    } else {
        let w1 = w.drop_last();
        let c = w.last();
        assert(w[w.len() - 1] == c);
        assert(c != '/');
        assert forall|i: int| 0 <= i < w1.len() implies w1[i] != '/' by {
            assert(w1[i] == w[i]);
        }
        lemma_split_append_plain(x, w1);
        assert((x + w).drop_last() =~= x + w1);
        assert((x + w).last() == c);
        assert((q.last() + w1).push(c) =~= q.last() + w);
        let p = split_on_slash(x + w1);
        assert(p.len() == q.len());
        assert(split_on_slash(x + w) =~= p.update(p.len() - 1, p.last().push(c)));
        assert(split_on_slash(x + w) =~= q.update(q.len() - 1, q.last() + w));
    }
}

/// The components of plain names joined by `/` are those names.
pub proof fn lemma_components_of_joined(names: Seq<Seq<char>>)
    requires
        names.len() >= 1,
        all_plain(names),
    ensures
        components(joined(names)) == names.map_values(|n: Seq<char>| PartView::Normal(n)),
{
    assert forall|i: int| 0 <= i < names.len() implies #[trigger] names[i].len() > 0
        && !names[i].contains('/') by {
        assert(plain_name(names[i]));
    }
    lemma_split_joined_ok(names);
    let s = joined(names);
    let pieces = split_on_slash(s);
    assert(plain_name(names[0]));
    lemma_joined_ends_ok(names);
    assert(!has_root(s)) by {
        if has_root(s) {
            assert(names[0][0] == '/');
            assert(names[0].contains('/'));
        }
    }
    assert(pieces[0] != seq!['.']);
    let named = pieces.filter(|p: Seq<char>| is_named_piece(p));
    assert(named =~= pieces) by {
        assert forall|i: int| 0 <= i < pieces.len() implies is_named_piece(#[trigger] pieces[i]) by {
            assert(plain_name(names[i]));
        }
        lemma_filter_keeps_all(pieces, |p: Seq<char>| is_named_piece(p));
    }
    assert forall|i: int| 0 <= i < names.len() implies piece_part(#[trigger] names[i])
        == PartView::Normal(names[i]) by {
        assert(plain_name(names[i]));
    }
    assert(named_parts(pieces) =~= names.map_values(|n: Seq<char>| PartView::Normal(n)));
}

/// Filtering by a predicate that every element meets keeps the sequence.
proof fn lemma_filter_keeps_all<A>(s: Seq<A>, p: spec_fn(A) -> bool)
    requires
        forall|i: int| 0 <= i < s.len() ==> p(#[trigger] s[i]),
    ensures
        s.filter(p) == s,
    decreases s.len(),
{
    if s.len() > 0 {
        let init = s.drop_last();
        assert forall|i: int| 0 <= i < init.len() implies p(#[trigger] init[i]) by {
            assert(init[i] == s[i]);
        }
        lemma_filter_keeps_all(init, p);
        init.lemma_filter_push(s.last(), p);
        assert(init.push(s.last()) =~= s);
        assert(p(s[s.len() - 1]));
    }
}

/// `prefix` with `name` pushed onto it, as `PathBuf::push` does on Unix: an
/// absolute `name` replaces the path; otherwise a `/` is put between them
/// unless `prefix` is empty or already ends with one.
pub open spec fn push_path(prefix: Seq<char>, name: Seq<char>) -> Seq<char> {
    if has_root(name) {
        name
    } else if prefix.len() == 0 {
        name
    } else if prefix.last() == '/' {
        prefix + name
    } else {
        prefix + seq!['/'] + name
    }
}

/// The text of [`push_path`].
pub fn push_text(prefix: &str, name: &str) -> (r: String)
    ensures
        r@ == push_path(prefix@, name@),
{
    let n = name.unicode_len();
    if n > 0 && name.get_char(0) == '/' {
        return String::from_str(name);
    }
    let m = prefix.unicode_len();
    if m == 0 {
        return String::from_str(name);
    }
    let mut r = String::from_str(prefix);
    if prefix.get_char(m - 1) != '/' {
        proof {
            reveal_strlit("/");
        }
        r.append("/");
    }
    r.append(name);
    r
}

/// The text that stands for one component.
pub open spec fn part_text(p: PartView) -> Seq<char> {
    match p {
        PartView::RootDir => seq!['/'],
        PartView::CurDir => seq!['.'],
        PartView::ParentDir => seq!['.', '.'],
        PartView::Normal(n) => n,
    }
}

/// The plain spelling of a component list: its parts pushed one by one.
pub open spec fn render(parts: Seq<PartView>) -> Seq<char>
    decreases parts.len(),
{
    if parts.len() == 0 {
        Seq::empty()
    } else {
        push_path(render(parts.drop_last()), part_text(parts.last()))
    }
}

/// The key a path is compared by: the plain spelling of its components, so
/// that two paths with the same components have the same key.
pub open spec fn path_key(path: Seq<char>) -> Seq<char> {
    render(components(path))
}

/// The text of one component.
fn part_string(p: &PathPart) -> (r: String)
    ensures
        r@ == part_text(p@),
{
    proof {
        reveal_strlit("/");
        reveal_strlit(".");
        reveal_strlit("..");
    }
    match p {
        PathPart::RootDir => String::from_str("/"),
        PathPart::CurDir => String::from_str("."),
        PathPart::ParentDir => String::from_str(".."),
        PathPart::Normal(n) => n.clone(),
    }
}

/// The key of `path`: the plain spelling of its components.
pub fn path_key_text(path: &str) -> (r: String)
    ensures
        r@ == path_key(path@),
{
    let parts = path_parts(path);
    let ghost pv = parts@.map_values(|p: PathPart| p@);
    let mut r = String::new();
    let mut i: usize = 0;
    while i < parts.len()
        invariant
            i <= parts@.len(),
            pv == parts@.map_values(|p: PathPart| p@),
            r@ == render(pv.take(i as int)),
        decreases parts.len() - i,
    {
        let piece = part_string(&parts[i]);
        assert(pv.take(i + 1).drop_last() =~= pv.take(i as int));
        assert(pv.take(i + 1).last() == parts@[i as int]@);
        r = push_text(r.as_str(), piece.as_str());
        i = i + 1;
    }
    assert(pv.take(parts@.len() as int) =~= pv);
    r
}

pub proof fn lemma_joined_ends_plain(names: Seq<Seq<char>>)
    requires
        names.len() >= 1,
        all_plain(names),
    ensures
        joined(names).len() > 0,
        joined(names).last() != '/',
{
    let n = names.last();
    assert(plain_name(names[names.len() - 1]));
    if n.last() == '/' {
        assert(n.contains('/'));
    }
    if names.len() > 1 {
        assert(joined(names) == joined(names.drop_last()) + seq!['/'] + n);
    }
}

/// Pushing a plain name onto joined plain names joins it on.
pub proof fn lemma_push_joined(ps: Seq<Seq<char>>, n: Seq<char>)
    requires
        all_plain(ps),
        plain_name(n),
    ensures
        push_path(joined(ps), n) == joined(ps.push(n)),
        all_plain(ps.push(n)),
{
    let qs = ps.push(n);
    assert forall|i: int| 0 <= i < qs.len() implies plain_name(#[trigger] qs[i]) by {
        if i < ps.len() {
            assert(qs[i] == ps[i]);
        }
    }
    assert(qs.drop_last() =~= ps);
    if has_root(n) {
        assert(n.contains('/'));
    }
    if ps.len() > 0 {
        lemma_joined_ends_plain(ps);
    }
}

/// Joined plain names are their own key.
pub proof fn lemma_path_key_of_joined(names: Seq<Seq<char>>)
    requires
        names.len() >= 1,
        all_plain(names),
    ensures
        path_key(joined(names)) == joined(names),
{
    lemma_components_of_joined(names);
    lemma_render_normals(names);
}

proof fn lemma_render_normals(names: Seq<Seq<char>>)
    requires
        all_plain(names),
    ensures
        render(names.map_values(|n: Seq<char>| PartView::Normal(n))) == joined(names),
    decreases names.len(),
{
    let parts = names.map_values(|n: Seq<char>| PartView::Normal(n));
    if names.len() > 0 {
        let init = names.drop_last();
        assert forall|i: int| 0 <= i < init.len() implies plain_name(#[trigger] init[i]) by {
            assert(init[i] == names[i]);
        }
        lemma_render_normals(init);
        assert(parts.drop_last() =~= init.map_values(|n: Seq<char>| PartView::Normal(n)));
        assert(part_text(parts.last()) == names.last());
        assert(plain_name(names[names.len() - 1]));
        lemma_push_joined(init, names.last());
        assert(init.push(names.last()) =~= names);
    }
}

/// A component as `components` can give it: a normal component is one plain
/// name.
pub open spec fn sound_part(p: PartView) -> bool {
    match p {
        PartView::Normal(n) => plain_name(n),
        _ => true,
    }
}

/// A component that may follow the first: a plain name or `..`.
pub open spec fn inner_part(p: PartView) -> bool {
    match p {
        PartView::Normal(n) => plain_name(n),
        PartView::ParentDir => true,
        _ => false,
    }
}

/// A component list as `components` gives it: a root or `.` only in first
/// place, and every other component a plain name or `..`.
pub open spec fn sound_parts(parts: Seq<PartView>) -> bool {
    &&& forall|i: int| 0 <= i < parts.len() ==> sound_part(#[trigger] parts[i])
    &&& forall|i: int| 0 < i < parts.len() ==> inner_part(#[trigger] parts[i])
}

/// Non-empty pieces free of `/`.
pub open spec fn pieces_ok(names: Seq<Seq<char>>) -> bool {
    forall|i: int| 0 <= i < names.len() ==> #[trigger] names[i].len() > 0 && !names[i].contains('/')
}

proof fn lemma_split_pieces_free(s: Seq<char>)
    ensures
        forall|i: int| 0 <= i < split_on_slash(s).len() ==> !(#[trigger] split_on_slash(s)[i]).contains('/'),
    decreases s.len(),
{
    if s.len() > 0 {
        lemma_split_pieces_free(s.drop_last());
        lemma_split_nonempty(s.drop_last());
        let q = split_on_slash(s.drop_last());
        if s.last() != '/' {
            let piece = q.last().push(s.last());
            assert(!q[q.len() - 1].contains('/'));
            assert(!piece.contains('/')) by {
                if piece.contains('/') {
                    let j = choose|j: int| 0 <= j < piece.len() && piece[j] == '/';
                    if j < q.last().len() {
                        assert(q.last()[j] == '/');
                        assert(q.last().contains('/'));
                    }
                }
            }
            assert forall|i: int| 0 <= i < split_on_slash(s).len() implies !(
            #[trigger] split_on_slash(s)[i]).contains('/') by {
                if i < q.len() - 1 {
                    assert(split_on_slash(s)[i] == q[i]);
                }
            }
        } else {
            assert forall|i: int| 0 <= i < split_on_slash(s).len() implies !(
            #[trigger] split_on_slash(s)[i]).contains('/') by {
                if i < q.len() {
                    assert(split_on_slash(s)[i] == q[i]);
                } else {
                    assert(split_on_slash(s)[i] == Seq::<char>::empty());
                }
            }
        }
    }
}

proof fn lemma_filter_keeps_property<A>(s: Seq<A>, p: spec_fn(A) -> bool, q: spec_fn(A) -> bool)
    requires
        forall|i: int| 0 <= i < s.len() ==> q(#[trigger] s[i]),
    ensures
        forall|i: int| 0 <= i < s.filter(p).len() ==> q(#[trigger] s.filter(p)[i]),
    decreases s.len(),
{
    if s.len() > 0 {
        let init = s.drop_last();
        assert forall|i: int| 0 <= i < init.len() implies q(#[trigger] init[i]) by {
            assert(init[i] == s[i]);
        }
        lemma_filter_keeps_property(init, p, q);
        init.lemma_filter_push(s.last(), p);
        assert(init.push(s.last()) =~= s);
        assert(q(s[s.len() - 1]));
        let f = s.filter(p);
        assert forall|i: int| 0 <= i < f.len() implies q(#[trigger] f[i]) by {
            if i < init.filter(p).len() {
                assert(f[i] == init.filter(p)[i]);
            }
        }
    }
}

/// What `components` gives is a sound component list.
pub proof fn lemma_components_sound(s: Seq<char>)
    ensures
        sound_parts(components(s)),
{
    let pieces = split_on_slash(s);
    lemma_split_nonempty(s);
    lemma_split_pieces_free(s);
    let free = |p: Seq<char>| !p.contains('/');
    assert forall|i: int| 0 <= i < pieces.len() implies free(#[trigger] pieces[i]) by {}
    let rest = if !has_root(s) && pieces[0] == seq!['.'] {
        pieces.drop_first()
    } else {
        pieces
    };
    assert forall|i: int| 0 <= i < rest.len() implies free(#[trigger] rest[i]) by {
        if !has_root(s) && pieces[0] == seq!['.'] {
            assert(rest[i] == pieces[i + 1]);
        }
    }
    let named = rest.filter(|p: Seq<char>| is_named_piece(p));
    lemma_filter_keeps_property(rest, |p: Seq<char>| is_named_piece(p), free);
    assert forall|i: int| 0 <= i < named.len() implies is_named_piece(#[trigger] named[i]) by {
        rest.lemma_filter_pred(|p: Seq<char>| is_named_piece(p), i);
    }
    let np = named_parts(rest);
    assert forall|i: int| 0 <= i < np.len() implies inner_part(#[trigger] np[i]) by {
        assert(np[i] == piece_part(named[i]));
        assert(free(named[i]));
        assert(is_named_piece(named[i]));
    }
    let c = components(s);
    if has_root(s) {
        assert(c == seq![PartView::RootDir] + np);
        assert forall|i: int| 0 < i < c.len() implies inner_part(#[trigger] c[i]) by {
            assert(c[i] == np[i - 1]);
        }
    } else if pieces[0] == seq!['.'] {
        assert(c == seq![PartView::CurDir] + np);
        assert forall|i: int| 0 < i < c.len() implies inner_part(#[trigger] c[i]) by {
            assert(c[i] == np[i - 1]);
        }
    } else {
        assert(c == np);
    }
    assert forall|i: int| 0 <= i < c.len() implies sound_part(#[trigger] c[i]) by {
        if i > 0 {
            assert(inner_part(c[i]));
        } else if c[0] is Normal {
            if has_root(s) || pieces[0] == seq!['.'] {
            } else {
                assert(inner_part(np[0]));
            }
        }
    }
}

/// The texts of a component list.
pub open spec fn part_texts(parts: Seq<PartView>) -> Seq<Seq<char>> {
    parts.map_values(|p: PartView| part_text(p))
}

proof fn lemma_inner_texts(parts: Seq<PartView>)
    requires
        forall|i: int| 0 <= i < parts.len() ==> inner_part(#[trigger] parts[i]),
    ensures
        pieces_ok(part_texts(parts)),
        forall|i: int| 0 <= i < parts.len() ==> is_named_piece(#[trigger] part_texts(parts)[i]),
        forall|i: int| 0 <= i < parts.len() ==> piece_part(#[trigger] part_texts(parts)[i]) == parts[i],
{
    let ts = part_texts(parts);
    assert forall|i: int| 0 <= i < ts.len() implies #[trigger] ts[i].len() > 0 && !ts[i].contains('/') by {
        assert(inner_part(parts[i]));
        if parts[i] is ParentDir {
            assert(ts[i] == seq!['.', '.']);
            if ts[i].contains('/') {
                let j = choose|j: int| 0 <= j < ts[i].len() && ts[i][j] == '/';
            }
        }
    }
    assert forall|i: int| 0 <= i < parts.len() implies is_named_piece(#[trigger] part_texts(parts)[i]) by {
        assert(inner_part(parts[i]));
        if parts[i] is ParentDir {
            assert(ts[i] == seq!['.', '.']);
            assert(ts[i].len() != seq!['.'].len());
        }
    }
    assert forall|i: int| 0 <= i < parts.len() implies piece_part(#[trigger] part_texts(parts)[i])
        == parts[i] by {
        assert(inner_part(parts[i]));
    }
}

proof fn lemma_joined_ends_ok(names: Seq<Seq<char>>)
    requires
        names.len() >= 1,
        pieces_ok(names),
    ensures
        joined(names).len() > 0,
        joined(names).last() != '/',
        joined(names)[0] == names[0][0],
    decreases names.len(),
{
    let n = names.last();
    assert(names[names.len() - 1].len() > 0 && !names[names.len() - 1].contains('/'));
    if n.last() == '/' {
        assert(n.contains('/'));
    }
    assert(names[0].len() > 0);
    if names.len() > 1 {
        let init = names.drop_last();
        assert forall|i: int| 0 <= i < init.len() implies #[trigger] init[i].len() > 0 && !init[i].contains('/') by {
            assert(init[i] == names[i]);
        }
        lemma_joined_ends_ok(init);
        assert(init[0] == names[0]);
        assert(joined(names) == joined(init) + seq!['/'] + n);
    }
}

proof fn lemma_pieces_ok_init(names: Seq<Seq<char>>)
    requires
        names.len() >= 1,
        pieces_ok(names),
    ensures
        pieces_ok(names.drop_last()),
{
    let init = names.drop_last();
    assert forall|i: int| 0 <= i < init.len() implies #[trigger] init[i].len() > 0 && !init[i].contains('/') by {
        assert(init[i] == names[i]);
    }
}

/// Components that are plain names or `..` render as their texts joined by
/// `/`.
proof fn lemma_render_inner(parts: Seq<PartView>)
    requires
        parts.len() >= 1,
        forall|i: int| 0 <= i < parts.len() ==> inner_part(#[trigger] parts[i]),
    ensures
        render(parts) == joined(part_texts(parts)),
    decreases parts.len(),
{
    let ts = part_texts(parts);
    lemma_inner_texts(parts);
    let t = ts[ts.len() - 1];
    assert(t.len() > 0 && !t.contains('/'));
    if t[0] == '/' {
        assert(t.contains('/'));
    }
    let init = parts.drop_last();
    assert(part_text(parts.last()) == t);
    if parts.len() == 1 {
        assert(render(init) == Seq::<char>::empty());
    } else {
        assert forall|i: int| 0 <= i < init.len() implies inner_part(#[trigger] init[i]) by {
            assert(init[i] == parts[i]);
        }
        lemma_render_inner(init);
        assert(part_texts(init) =~= ts.drop_last());
        lemma_pieces_ok_init(ts);
        lemma_joined_ends_ok(ts.drop_last());
        assert(joined(ts) == joined(ts.drop_last()) + seq!['/'] + t);
    }
}

/// A root or `.` followed by plain names and `..` renders as its text, `/`
/// and the rest joined by `/` (the root's own text is the separator).
proof fn lemma_render_lead(parts: Seq<PartView>)
    requires
        parts.len() >= 2,
        parts[0] is RootDir || parts[0] is CurDir,
        forall|i: int| 0 < i < parts.len() ==> inner_part(#[trigger] parts[i]),
    ensures
        render(parts) == (if parts[0] is RootDir {
            Seq::<char>::empty()
        } else {
            seq!['.']
        }) + seq!['/'] + joined(part_texts(parts.drop_first())),
    decreases parts.len(),
{
    let lead = if parts[0] is RootDir {
        Seq::<char>::empty()
    } else {
        seq!['.']
    };
    let rest = parts.drop_first();
    assert forall|i: int| 0 <= i < rest.len() implies inner_part(#[trigger] rest[i]) by {
        assert(rest[i] == parts[i + 1]);
    }
    let ts = part_texts(rest);
    lemma_inner_texts(rest);
    let t = ts[ts.len() - 1];
    assert(t.len() > 0 && !t.contains('/'));
    if t[0] == '/' {
        assert(t.contains('/'));
    }
    let init = parts.drop_last();
    assert(parts.last() == rest.last());
    assert(part_text(parts.last()) == t);
    if parts.len() == 2 {
        assert(init =~= seq![parts[0]]);
        assert(render(seq![parts[0]].drop_last()) == Seq::<char>::empty());
        assert(render(init) == part_text(parts[0]));
        assert(joined(ts) == t);
        assert(render(parts) =~= lead + seq!['/'] + t);
    } else {
        assert forall|i: int| 0 < i < init.len() implies inner_part(#[trigger] init[i]) by {
            assert(init[i] == parts[i]);
        }
        lemma_render_lead(init);
        assert(init.drop_first() =~= rest.drop_last());
        assert(part_texts(rest.drop_last()) =~= ts.drop_last());
        lemma_pieces_ok_init(ts);
        lemma_joined_ends_ok(ts.drop_last());
        let j0 = joined(ts.drop_last());
        assert(render(init) == lead + seq!['/'] + j0);
        assert((lead + seq!['/'] + j0).last() == j0.last());
        assert(joined(ts) == j0 + seq!['/'] + t);
        assert(render(parts) =~= lead + seq!['/'] + joined(ts));
    }
}

proof fn lemma_split_slash_piece(x: Seq<char>, t: Seq<char>)
    requires
        !t.contains('/'),
    ensures
        split_on_slash(x + seq!['/'] + t) == split_on_slash(x).push(t),
{
    let a = x + seq!['/'];
    assert(a.drop_last() =~= x);
    assert(split_on_slash(a) == split_on_slash(x).push(Seq::<char>::empty()));
    lemma_split_append_plain(a, t);
    assert(x + seq!['/'] + t =~= a + t);
    let q = split_on_slash(x).push(Seq::<char>::empty());
    assert(Seq::<char>::empty() + t =~= t);
    assert(q.update(q.len() - 1, q.last() + t) =~= split_on_slash(x).push(t));
}

proof fn lemma_split_after(a: Seq<char>, ts: Seq<Seq<char>>)
    requires
        ts.len() >= 1,
        pieces_ok(ts),
    ensures
        split_on_slash(a + seq!['/'] + joined(ts)) == split_on_slash(a) + ts,
    decreases ts.len(),
{
    let t = ts[ts.len() - 1];
    assert(t.len() > 0 && !t.contains('/'));
    if ts.len() == 1 {
        assert(joined(ts) == t);
        lemma_split_slash_piece(a, t);
        assert(split_on_slash(a).push(t) =~= split_on_slash(a) + ts);
    } else {
        let init = ts.drop_last();
        lemma_pieces_ok_init(ts);
        lemma_split_after(a, init);
        let x = a + seq!['/'] + joined(init);
        lemma_split_slash_piece(x, t);
        assert(a + seq!['/'] + joined(ts) =~= x + seq!['/'] + t);
        assert((split_on_slash(a) + init).push(t) =~= split_on_slash(a) + ts);
    }
}

proof fn lemma_named_parts_of_texts(ts: Seq<Seq<char>>, parts: Seq<PartView>)
    requires
        ts.len() == parts.len(),
        forall|i: int| 0 <= i < ts.len() ==> is_named_piece(#[trigger] ts[i]),
        forall|i: int| 0 <= i < ts.len() ==> piece_part(#[trigger] ts[i]) == parts[i],
    ensures
        named_parts(ts) == parts,
{
    lemma_filter_keeps_all(ts, |p: Seq<char>| is_named_piece(p));
    assert(named_parts(ts) =~= parts);
}

/// The plain spelling of a sound component list has exactly those
/// components.
pub proof fn lemma_render_round_trip(parts: Seq<PartView>)
    requires
        sound_parts(parts),
    ensures
        components(render(parts)) == parts,
{
    let s = render(parts);
    if parts.len() == 0 {
        assert(s == Seq::<char>::empty());
        assert(split_on_slash(s) == seq![Seq::<char>::empty()]);
        assert(seq![Seq::<char>::empty()].filter(|p: Seq<char>| is_named_piece(p)) =~= Seq::<Seq<char>>::empty()) by {
            Seq::<Seq<char>>::empty().lemma_filter_push(Seq::<char>::empty(), |p: Seq<char>| is_named_piece(p));
            assert(Seq::<Seq<char>>::empty().push(Seq::<char>::empty()) =~= seq![Seq::<char>::empty()]);
        }
        assert(components(s) =~= parts);
    } else if parts[0] is RootDir || parts[0] is CurDir {
        let rest = parts.drop_first();
        assert forall|i: int| 0 <= i < rest.len() implies inner_part(#[trigger] rest[i]) by {
            assert(rest[i] == parts[i + 1]);
        }
        let lead = if parts[0] is RootDir {
            Seq::<char>::empty()
        } else {
            seq!['.']
        };
        let ts = part_texts(rest);
        lemma_inner_texts(rest);
        let empty_pieces = Seq::<Seq<char>>::empty();
        if parts.len() == 1 {
            assert(render(parts.drop_last()) == Seq::<char>::empty());
            assert(s == part_text(parts[0]));
            if parts[0] is RootDir {
                assert(s =~= Seq::<char>::empty() + seq!['/']);
                assert(s.drop_last() =~= Seq::<char>::empty());
                assert(s.len() == 1 && s.last() == '/');
                assert(split_on_slash(Seq::<char>::empty()) == seq![Seq::<char>::empty()]);
                assert(split_on_slash(s) == split_on_slash(s.drop_last()).push(Seq::<char>::empty()));
                assert(split_on_slash(s) =~= seq![Seq::<char>::empty(), Seq::<char>::empty()]);
                let ps = seq![Seq::<char>::empty(), Seq::<char>::empty()];
                assert(ps.filter(|p: Seq<char>| is_named_piece(p)) =~= empty_pieces) by {
                    empty_pieces.lemma_filter_push(Seq::<char>::empty(), |p: Seq<char>| is_named_piece(p));
                    assert(empty_pieces.push(Seq::<char>::empty()) =~= seq![Seq::<char>::empty()]);
                    seq![Seq::<char>::empty()].lemma_filter_push(Seq::<char>::empty(), |p: Seq<char>| is_named_piece(p));
                    assert(seq![Seq::<char>::empty()].push(Seq::<char>::empty()) =~= ps);
                }
                assert(components(s) =~= parts);
            } else {
                lemma_split_append_plain(Seq::<char>::empty(), seq!['.']);
                assert(Seq::<char>::empty() + seq!['.'] =~= s);
                assert(split_on_slash(Seq::<char>::empty()) == seq![Seq::<char>::empty()]);
                assert(split_on_slash(s) =~= seq![seq!['.']]);
                assert(split_on_slash(s).drop_first() =~= empty_pieces);
                assert(empty_pieces.filter(|p: Seq<char>| is_named_piece(p)) =~= empty_pieces) by {
                    reveal(Seq::filter);
                }
                assert(components(s) =~= parts);
            }
        } else {
            lemma_render_lead(parts);
            lemma_split_after(lead, ts);
            assert(s == lead + seq!['/'] + joined(ts));
            lemma_named_parts_of_texts(ts, rest);
            if parts[0] is RootDir {
                assert(split_on_slash(lead) == seq![Seq::<char>::empty()]);
                assert(s[0] == '/');
                let pieces = seq![Seq::<char>::empty()] + ts;
                assert(split_on_slash(s) == pieces);
                Seq::filter_distributes_over_add(seq![Seq::<char>::empty()], ts, |p: Seq<char>| is_named_piece(p));
                empty_pieces.lemma_filter_push(Seq::<char>::empty(), |p: Seq<char>| is_named_piece(p));
                assert(empty_pieces.push(Seq::<char>::empty()) =~= seq![Seq::<char>::empty()]);
                assert(empty_pieces.filter(|p: Seq<char>| is_named_piece(p)) =~= empty_pieces) by {
                    reveal(Seq::filter);
                }
                assert(pieces.filter(|p: Seq<char>| is_named_piece(p)) =~= ts.filter(|p: Seq<char>| is_named_piece(p)));
                assert(named_parts(pieces) == named_parts(ts));
                assert(components(s) =~= parts);
            } else {
                lemma_split_append_plain(Seq::<char>::empty(), seq!['.']);
                assert(Seq::<char>::empty() + seq!['.'] =~= lead);
                assert(split_on_slash(lead) =~= seq![seq!['.']]);
                assert(s[0] == '.');
                let pieces = seq![seq!['.']] + ts;
                assert(split_on_slash(s) == pieces);
                assert(pieces.drop_first() =~= ts);
                assert(components(s) =~= parts);
            }
        }
    } else {
        assert forall|i: int| 0 <= i < parts.len() implies inner_part(#[trigger] parts[i]) by {
            if i == 0 {
                assert(sound_part(parts[0]));
            }
        }
        lemma_render_inner(parts);
        let ts = part_texts(parts);
        lemma_inner_texts(parts);
        lemma_joined_ends_ok(ts);
        lemma_split_joined_ok(ts);
        lemma_named_parts_of_texts(ts, parts);
        assert(ts[0].len() > 0 && !ts[0].contains('/'));
        if s[0] == '/' {
            assert(ts[0][0] == '/');
            assert(ts[0].contains('/'));
        }
        assert(is_named_piece(ts[0]));
        assert(components(s) =~= parts);
    }
}

/// Non-empty pieces free of `/`, joined by `/`, split back into themselves.
proof fn lemma_split_joined_ok(names: Seq<Seq<char>>)
    requires
        names.len() >= 1,
        pieces_ok(names),
    ensures
        split_on_slash(joined(names)) == names,
    decreases names.len(),
{
    let t = names[names.len() - 1];
    assert(t.len() > 0 && !t.contains('/'));
    if names.len() == 1 {
        lemma_split_append_plain(Seq::<char>::empty(), t);
        assert(Seq::<char>::empty() + t =~= t);
        assert(split_on_slash(Seq::<char>::empty()) == seq![Seq::<char>::empty()]);
        assert(seq![Seq::<char>::empty()].update(0, Seq::<char>::empty() + t) =~= names);
    } else {
        let init = names.drop_last();
        lemma_pieces_ok_init(names);
        lemma_split_joined_ok(init);
        lemma_split_slash_piece(joined(init), t);
        assert(joined(names) == joined(init) + seq!['/'] + t);
        assert(init.push(t) =~= names);
    }
}

} // verus!
