//! A component-level model of file-system paths.
//!
//! A path is a possibly absolute sequence of components; a component is a
//! non-empty run of characters without a separator. On this model the library
//! defines joining, rendering, extension normalization and relativization,
//! the path operations the output renderers depend on.

use vstd::prelude::*;

verus! {

/// A file-system path: a sequence of components, optionally rooted.
#[derive(Debug)]
pub struct LibPath {
    pub absolute: bool,
    pub components: Vec<Vec<char>>,
}

impl LibPath {
    /// The components of this path, as a sequence of character sequences.
    pub open spec fn comps(&self) -> Seq<Seq<char>> {
        self.components.deep_view()
    }

    /// Every component is non-empty and free of separators.
    pub open spec fn wf(&self) -> bool {
        all_wf(self.comps())
    }

    /// An absolute, well-formed path with no `..` or `.` components.
    pub open spec fn canonical(&self) -> bool {
        canonical_comps(self.absolute, self.comps())
    }
}

/// The `..` component.
pub open spec fn parent_component() -> Seq<char> {
    seq!['.', '.']
}

/// The `.` component.
pub open spec fn cur_component() -> Seq<char> {
    seq!['.']
}

/// A component that names an entry: not `..` and not `.`.
pub open spec fn plain_component(c: Seq<char>) -> bool {
    c != parent_component() && c != cur_component()
}

/// Non-empty and free of the separator character.
pub open spec fn wf_component(c: Seq<char>) -> bool {
    c.len() > 0 && !c.contains('/')
}

pub open spec fn all_wf(parts: Seq<Seq<char>>) -> bool {
    forall|i: int| 0 <= i < parts.len() ==> wf_component(#[trigger] parts[i])
}

pub open spec fn all_plain(parts: Seq<Seq<char>>) -> bool {
    forall|i: int| 0 <= i < parts.len() ==> plain_component(#[trigger] parts[i])
}

/// A rooted sequence of well-formed components that all name entries.
pub open spec fn canonical_comps(absolute: bool, parts: Seq<Seq<char>>) -> bool {
    absolute && all_wf(parts) && all_plain(parts)
}

/// Copies a character vector.
pub fn clone_chars(v: &Vec<char>) -> (r: Vec<char>)
    ensures
        r@ == v@,
{
    let mut r: Vec<char> = Vec::new();
    let mut i: usize = 0;
    while i < v.len()
        invariant
            0 <= i <= v.len(),
            r@ == v@.take(i as int),
        decreases v.len() - i,
    {
        r.push(v[i]);
        proof {
            assert(v@.take(i + 1) =~= v@.take(i as int).push(v@[i as int]));
        }
        i = i + 1;
    }
    proof {
        assert(v@.take(v@.len() as int) =~= v@);
    }
    r
}

/// Copies a component vector.
pub fn clone_components(v: &Vec<Vec<char>>) -> (r: Vec<Vec<char>>)
    ensures
        r.deep_view() == v.deep_view(),
{
    let mut r: Vec<Vec<char>> = Vec::new();
    let mut i: usize = 0;
    while i < v.len()
        invariant
            0 <= i <= v.len(),
            r@.len() == i,
            forall|j: int| 0 <= j < i ==> #[trigger] r@[j].deep_view() == v.deep_view()[j],
        decreases v.len() - i,
    {
        let c = clone_chars(&v[i]);
        proof {
            assert(c.deep_view() =~= v@[i as int].deep_view());
        }
        r.push(c);
        i = i + 1;
    }
    proof {
        assert(r.deep_view() =~~= v.deep_view());
    }
    r
}

/// Appends the characters of `c` to `out`.
pub fn push_chars(out: &mut Vec<char>, c: &Vec<char>)
    ensures
        final(out)@ == old(out)@ + c@,
{
    let mut i: usize = 0;
    while i < c.len()
        invariant
            0 <= i <= c.len(),
            out@ == old(out)@ + c@.take(i as int),
        decreases c.len() - i,
    {
        out.push(c[i]);
        proof {
            assert(out@ =~= old(out)@ + c@.take(i + 1));
        }
        i = i + 1;
    }
    proof {
        assert(old(out)@ + c@.take(c@.len() as int) =~= old(out)@ + c@);
    }
}

/// Whether two character vectors hold the same characters.
pub fn chars_eq(a: &Vec<char>, b: &Vec<char>) -> (r: bool)
    ensures
        r == (a@ == b@),
{
    if a.len() != b.len() {
        return false;
    }
    let mut i: usize = 0;
    while i < a.len()
        invariant
            0 <= i <= a.len(),
            a.len() == b.len(),
            forall|j: int| 0 <= j < i ==> a@[j] == b@[j],
        decreases a.len() - i,
    {
        if a[i] != b[i] {
            return false;
        }
        i = i + 1;
    }
    proof {
        assert(a@ =~= b@);
    }
    true
}

/// The parts interleaved with the separator: `a`, `sep`, `b`, `sep`, `c`.
pub open spec fn sep_join(parts: Seq<Seq<char>>, sep: char) -> Seq<char>
    decreases parts.len(),
{
    if parts.len() == 0 {
        Seq::empty()
    } else if parts.len() == 1 {
        parts[0]
    } else {
        parts[0] + seq![sep] + sep_join(parts.skip(1), sep)
    }
}

pub proof fn lemma_sep_join_push(parts: Seq<Seq<char>>, p: Seq<char>, sep: char)
    ensures
        sep_join(parts.push(p), sep) == if parts.len() == 0 {
            p
        } else {
            sep_join(parts, sep) + seq![sep] + p
        },
    decreases parts.len(),
{
    if parts.len() == 0 {
        assert(parts.push(p)[0] == p);
    } else if parts.len() == 1 {
        assert(parts.push(p).skip(1) =~= seq![p]);
        assert(sep_join(seq![p], sep) == p);
        assert(parts.push(p)[0] == parts[0]);
    } else {
        assert(parts.push(p).skip(1) =~= parts.skip(1).push(p));
        lemma_sep_join_push(parts.skip(1), p, sep);
        assert(parts.push(p)[0] == parts[0]);
        assert(parts[0] + seq![sep] + (sep_join(parts.skip(1), sep) + seq![sep] + p) =~= (parts[0]
            + seq![sep] + sep_join(parts.skip(1), sep)) + seq![sep] + p);
    }
}

/// The textual rendering of a path: components joined by `/`, with a leading
/// `/` when the path is absolute.
pub open spec fn display_of(absolute: bool, parts: Seq<Seq<char>>) -> Seq<char> {
    if absolute {
        seq!['/'] + sep_join(parts, '/')
    } else {
        sep_join(parts, '/')
    }
}

/// Renders a path as text.
pub fn display_path(p: &LibPath) -> (out: Vec<char>)
    ensures
        out@ == display_of(p.absolute, p.comps()),
{
    let mut out: Vec<char> = Vec::new();
    if p.absolute {
        out.push('/');
    }
    let ghost lead: Seq<char> = if p.absolute {
        seq!['/']
    } else {
        Seq::empty()
    };
    proof {
        assert(out@ =~= lead + sep_join(p.comps().take(0), '/'));
    }
    let mut i: usize = 0;
    while i < p.components.len()
        invariant
            0 <= i <= p.components.len(),
            p.comps().len() == p.components.len(),
            lead == if p.absolute {
                seq!['/']
            } else {
                Seq::<char>::empty()
            },
            out@ == lead + sep_join(p.comps().take(i as int), '/'),
        decreases p.components.len() - i,
    {
        let ghost done = p.comps().take(i as int);
        if i > 0 {
            out.push('/');
        }
        push_chars(&mut out, &p.components[i]);
        proof {
            lemma_sep_join_push(done, p.comps()[i as int], '/');
            assert(p.comps().take(i + 1) =~= done.push(p.comps()[i as int]));
            assert(out@ =~= lead + sep_join(p.comps().take(i + 1), '/'));
        }
        i = i + 1;
    }
    proof {
        assert(p.comps().take(p.comps().len() as int) =~= p.comps());
        assert(out@ =~= display_of(p.absolute, p.comps()));
    }
    out
}

/// The join of two paths: an absolute right operand replaces the left one,
/// any other right operand is appended to it.
pub open spec fn spec_join(
    base_absolute: bool,
    base: Seq<Seq<char>>,
    other_absolute: bool,
    other: Seq<Seq<char>>,
) -> (bool, Seq<Seq<char>>) {
    if other_absolute {
        (true, other)
    } else {
        (base_absolute, base + other)
    }
}

/// Joins `other` onto `base`.
pub fn join_path(base: &LibPath, other: &LibPath) -> (r: LibPath)
    ensures
        (r.absolute, r.comps()) == spec_join(base.absolute, base.comps(), other.absolute, other.comps()),
{
    if other.absolute {
        LibPath { absolute: true, components: clone_components(&other.components) }
    } else {
        let mut components = clone_components(&base.components);
        let base_len = components.len();
        proof {
            assert(base_len == base.comps().len());
        }
        let mut i: usize = 0;
        while i < other.components.len()
            invariant
                0 <= i <= other.components.len(),
                other.comps().len() == other.components.len(),
                base_len == base.comps().len(),
                components@.len() == base_len + i,
                forall|j: int|
                    0 <= j < base_len ==> #[trigger] components@[j].deep_view() == base.comps()[j],
                forall|j: int|
                    0 <= j < i ==> #[trigger] components@[base_len + j].deep_view()
                        == other.comps()[j],
            decreases other.components.len() - i,
        {
            let c = clone_chars(&other.components[i]);
            proof {
                assert(c.deep_view() =~= other.comps()[i as int]);
            }
            components.push(c);
            i = i + 1;
        }
        proof {
            assert forall|j: int| 0 <= j < components@.len() implies components.deep_view()[j]
                == (base.comps() + other.comps())[j] by {
                if j >= base_len {
                    assert(components@[base_len + (j - base_len)].deep_view() == other.comps()[j
                        - base_len]);
                }
            }
            assert(components.deep_view() =~~= base.comps() + other.comps());
        }
        LibPath { absolute: base.absolute, components }
    }
}

/// The index of the dot that separates a file name from its extension: the
/// last dot of `f`, or `-1` when `f` has none.
pub open spec fn last_dot(f: Seq<char>) -> int
    decreases f.len(),
{
    if f.len() == 0 {
        -1
    } else if f.last() == '.' {
        f.len() - 1
    } else {
        last_dot(f.drop_last())
    }
}

/// The extension of the file name `f`: the characters after its last dot,
/// provided that dot is not its first character. A name without a dot, or
/// whose only dot leads it, has no extension.
pub open spec fn extension_of(f: Seq<char>) -> Option<Seq<char>> {
    if last_dot(f) >= 1 {
        Some(f.subrange(last_dot(f) + 1, f.len() as int))
    } else {
        None
    }
}

/// The file name `f` without its extension and without the separating dot.
pub open spec fn stem_of(f: Seq<char>) -> Seq<char> {
    if last_dot(f) >= 1 {
        f.take(last_dot(f))
    } else {
        f
    }
}

/// A usable extension: non-empty, without dots and without separators.
pub open spec fn valid_extension(e: Seq<char>) -> bool {
    e.len() > 0 && !e.contains('.') && !e.contains('/')
}

/// The file name `f` carrying the extension `e`: unchanged when it already
/// does, otherwise its stem followed by a dot and `e`.
pub open spec fn normalized_name(f: Seq<char>, e: Seq<char>) -> Seq<char> {
    if extension_of(f) == Some(e) {
        f
    } else {
        stem_of(f) + seq!['.'] + e
    }
}

/// The components of a path whose last component carries the extension `e`.
/// A path without components, or one that ends in `..` or `.`, names no file
/// and is left unchanged.
pub open spec fn spec_normalize(parts: Seq<Seq<char>>, e: Seq<char>) -> Seq<Seq<char>> {
    if parts.len() == 0 || !plain_component(parts.last()) {
        parts
    } else {
        parts.update(parts.len() - 1, normalized_name(parts.last(), e))
    }
}

pub proof fn lemma_last_dot_bounds(f: Seq<char>)
    ensures
        -1 <= last_dot(f) < f.len(),
        last_dot(f) >= 0 ==> f[last_dot(f)] == '.',
        forall|k: int| last_dot(f) < k < f.len() ==> f[k] != '.',
    decreases f.len(),
{
    if f.len() == 0 {
    } else if f.last() == '.' {
    } else {
        lemma_last_dot_bounds(f.drop_last());
        assert forall|k: int| last_dot(f) < k < f.len() implies f[k] != '.' by {
            if k < f.len() - 1 {
                assert(f.drop_last()[k] != '.');
            }
        }
        if last_dot(f) >= 0 {
            assert(f.drop_last()[last_dot(f)] == '.');
        }
    }
}

/// Appending dot-free characters does not move the last dot.
pub proof fn lemma_last_dot_append(f: Seq<char>, t: Seq<char>)
    requires
        !t.contains('.'),
    ensures
        last_dot(f + t) == last_dot(f),
    decreases t.len(),
{
    if t.len() == 0 {
        assert(f + t =~= f);
    } else {
        assert(t[t.len() - 1] != '.');
        assert((f + t).last() == t.last());
        assert((f + t).drop_last() =~= f + t.drop_last());
        assert(!t.drop_last().contains('.')) by {
            assert(forall|k: int| 0 <= k < t.drop_last().len() ==> t.drop_last()[k] == t[k]);
        }
        lemma_last_dot_append(f, t.drop_last());
    }
}

/// A name built as stem, dot, extension carries exactly that extension.
pub proof fn lemma_with_ext(stem: Seq<char>, e: Seq<char>)
    requires
        stem.len() > 0,
        valid_extension(e),
    ensures
        last_dot(stem + seq!['.'] + e) == stem.len(),
        extension_of(stem + seq!['.'] + e) == Some(e),
{
    let dotted = stem + seq!['.'];
    assert(dotted.last() == '.');
    assert(last_dot(dotted) == stem.len());
    assert(stem + seq!['.'] + e =~= dotted + e);
    lemma_last_dot_append(dotted, e);
    assert(last_dot(stem + seq!['.'] + e) == stem.len());
    assert((stem + seq!['.'] + e).subrange(stem.len() as int + 1, (stem + seq!['.'] + e).len() as int)
        =~= e);
}

/// Once normalized, a path that names a file carries exactly the expected
/// extension.
pub proof fn lemma_normalized_extension(parts: Seq<Seq<char>>, e: Seq<char>)
    requires
        all_wf(parts),
        valid_extension(e),
        parts.len() > 0,
        plain_component(parts.last()),
    ensures
        extension_of(spec_normalize(parts, e).last()) == Some(e),
{
    let f = parts.last();
    assert(spec_normalize(parts, e).last() == normalized_name(f, e));
    if extension_of(f) == Some(e) {
    } else {
        assert(wf_component(f));
        assert(stem_of(f).len() > 0) by {
            lemma_last_dot_bounds(f);
        }
        lemma_with_ext(stem_of(f), e);
    }
}

/// Normalizing the extension twice is the same as normalizing it once.
pub proof fn lemma_normalize_idempotent(parts: Seq<Seq<char>>, e: Seq<char>)
    requires
        all_wf(parts),
        valid_extension(e),
    ensures
        spec_normalize(spec_normalize(parts, e), e) == spec_normalize(parts, e),
{
    if parts.len() == 0 || !plain_component(parts.last()) {
    } else {
        let f = parts.last();
        let n = normalized_name(f, e);
        let parts1 = parts.update(parts.len() - 1, n);
        assert(parts1.last() == n);
        if extension_of(f) == Some(e) {
            assert(n == f);
            assert(plain_component(parts1.last()));
            assert(spec_normalize(parts1, e) =~= parts1);
        } else {
            assert(wf_component(f));
            assert(stem_of(f).len() > 0) by {
                lemma_last_dot_bounds(f);
            }
            lemma_with_ext(stem_of(f), e);
            assert(extension_of(n) == Some(e));
            assert(n.len() == stem_of(f).len() + 1 + e.len());
            assert(n.len() >= 3);
            assert(plain_component(n)) by {
                assert(parent_component().len() == 2);
                assert(cur_component().len() == 1);
            }
            assert(normalized_name(n, e) == n);
            assert(spec_normalize(parts1, e) =~= parts1);
        }
    }
}

/// Finds the last dot of a file name.
fn find_last_dot(c: &Vec<char>) -> (r: Option<usize>)
    ensures
        match r {
            Some(i) => i as int == last_dot(c@),
            None => last_dot(c@) == -1,
        },
{
    let mut j: usize = c.len();
    proof {
        assert(c@.take(c@.len() as int) =~= c@);
    }
    while j > 0
        invariant
            0 <= j <= c.len(),
            last_dot(c@) == last_dot(c@.take(j as int)),
        decreases j,
    {
        if c[j - 1] == '.' {
            proof {
                assert(c@.take(j as int).last() == c@[j - 1]);
                assert(last_dot(c@.take(j as int)) == j - 1);
            }
            return Some(j - 1);
        }
        proof {
            assert(c@.take(j as int).last() == c@[j - 1]);
            assert(c@.take(j as int).drop_last() =~= c@.take(j - 1));
        }
        j = j - 1;
    }
    proof {
        assert(c@.take(0).len() == 0);
    }
    None
}

/// Whether the file name `c` has exactly the extension `e`.
fn has_extension(c: &Vec<char>, e: &Vec<char>) -> (r: bool)
    ensures
        r == (extension_of(c@) == Some(e@)),
{
    proof {
        lemma_last_dot_bounds(c@);
    }
    match find_last_dot(c) {
        None => false,
        Some(i) => {
            if i < 1 {
                return false;
            }
            let ext_len = c.len() - i - 1;
            if ext_len != e.len() {
                proof {
                    if extension_of(c@) == Some(e@) {
                        assert(c@.subrange(i + 1, c@.len() as int).len() == e@.len());
                    }
                }
                return false;
            }
            let mut k: usize = 0;
            while k < ext_len
                invariant
                    0 <= k <= ext_len,
                    1 <= i < c.len(),
                    i as int == last_dot(c@),
                    ext_len == c.len() - i - 1,
                    ext_len == e.len(),
                    forall|j: int| 0 <= j < k ==> c@[i + 1 + j] == e@[j],
                decreases ext_len - k,
            {
                if c[i + 1 + k] != e[k] {
                    proof {
                        if extension_of(c@) == Some(e@) {
                            assert(c@.subrange(i + 1, c@.len() as int)[k as int] == e@[k as int]);
                        }
                    }
                    return false;
                }
                k = k + 1;
            }
            proof {
                assert(c@.subrange(i + 1, c@.len() as int) =~= e@);
            }
            true
        },
    }
}

/// Ensures a path carries the expected file extension, correcting it when it
/// is absent or different. The path is otherwise unchanged; a path that names
/// no file (no components, or a `..` or `.` tail) is returned as it is.
pub fn check_and_correct_extension(path: &LibPath, expected_extension: &Vec<char>) -> (r: LibPath)
    requires
        valid_extension(expected_extension@),
    ensures
        r.absolute == path.absolute,
        r.comps() == spec_normalize(path.comps(), expected_extension@),
        path.wf() ==> r.wf(),
{
    let mut components = clone_components(&path.components);
    proof {
        assert(components.deep_view().len() == components@.len());
        assert(path.components.deep_view().len() == path.components@.len());
        assert(components@.len() == path.components@.len());
        assert(path.comps().len() == path.components@.len());
    }
    if components.len() == 0 {
        return LibPath { absolute: path.absolute, components };
    }
    let last = &path.components[components.len() - 1];
    proof {
        assert(last@ == path.comps().last());
    }
    if component_is_parent(last) || component_is_cur(last) {
        return LibPath { absolute: path.absolute, components };
    }
    if has_extension(last, expected_extension) {
        proof {
            assert(components.deep_view() =~~= spec_normalize(
                path.comps(),
                expected_extension@,
            ));
        }
        return LibPath { absolute: path.absolute, components };
    }
    let mut name: Vec<char> = Vec::new();
    proof {
        lemma_last_dot_bounds(last@);
    }
    let dot = find_last_dot(last);
    let stem_end: usize = match dot {
        Some(i) => {
            if i >= 1 {
                proof {
                    assert(last_dot(last@) == i as int);
                    assert(stem_of(last@) == last@.take(i as int));
                }
                i
            } else {
                proof {
                    assert(last_dot(last@) == 0);
                    assert(stem_of(last@) == last@);
                }
                last.len()
            }
        },
        None => {
            proof {
                assert(last_dot(last@) == -1);
                assert(stem_of(last@) == last@);
            }
            last.len()
        },
    };
    proof {
        assert(stem_end as int == stem_of(last@).len());
        assert(forall|j: int| 0 <= j < stem_end ==> stem_of(last@)[j] == last@[j]);
    }
    let mut j: usize = 0;
    while j < stem_end
        invariant
            0 <= j <= stem_end,
            stem_end <= last.len(),
            stem_end as int == stem_of(last@).len(),
            forall|k: int| 0 <= k < stem_end ==> stem_of(last@)[k] == last@[k],
            name@ == stem_of(last@).take(j as int),
        decreases stem_end - j,
    {
        name.push(last[j]);
        proof {
            assert(name@ =~= stem_of(last@).take(j + 1));
        }
        j = j + 1;
    }
    proof {
        assert(stem_of(last@).take(stem_end as int) =~= stem_of(last@));
    }
    name.push('.');
    push_chars(&mut name, expected_extension);
    proof {
        assert(name@ =~= normalized_name(last@, expected_extension@));
    }
    components.pop();
    components.push(name);
    proof {
        assert(components.deep_view() =~~= spec_normalize(path.comps(), expected_extension@));
        if path.wf() {
            assert(wf_component(normalized_name(path.comps().last(), expected_extension@)));
            assert(all_wf(components.deep_view()));
        }
    }
    LibPath { absolute: path.absolute, components }
}

/// Whether a component is the `..` component.
fn component_is_parent(c: &Vec<char>) -> (r: bool)
    ensures
        r == (c@ == parent_component()),
{
    let r = c.len() == 2 && c[0] == '.' && c[1] == '.';
    proof {
        if r {
            assert(c@ =~= parent_component());
        }
        if c@ == parent_component() {
            assert(c@.len() == 2 && c@[0] == '.' && c@[1] == '.');
        }
    }
    r
}

/// Whether a component is the `.` component.
fn component_is_cur(c: &Vec<char>) -> (r: bool)
    ensures
        r == (c@ == cur_component()),
{
    let r = c.len() == 1 && c[0] == '.';
    proof {
        if r {
            assert(c@ =~= cur_component());
        }
        if c@ == cur_component() {
            assert(c@.len() == 1 && c@[0] == '.');
        }
    }
    r
}

/// Whether two paths are the same: same rooting, same components.
pub fn paths_equal(a: &LibPath, b: &LibPath) -> (r: bool)
    ensures
        r == (a.absolute == b.absolute && a.comps() == b.comps()),
{
    if a.absolute != b.absolute {
        return false;
    }
    if a.components.len() != b.components.len() {
        proof {
            assert(a.comps().len() == a.components@.len());
            assert(b.comps().len() == b.components@.len());
        }
        return false;
    }
    let mut i: usize = 0;
    while i < a.components.len()
        invariant
            0 <= i <= a.components.len(),
            a.components@.len() == b.components@.len(),
            a.comps().len() == a.components@.len(),
            b.comps().len() == b.components@.len(),
            forall|j: int| 0 <= j < i ==> a.comps()[j] == b.comps()[j],
        decreases a.components.len() - i,
    {
        let eq = chars_eq(&a.components[i], &b.components[i]);
        proof {
            assert(a.comps()[i as int] =~= a.components@[i as int]@);
            assert(b.comps()[i as int] =~= b.components@[i as int]@);
        }
        if !eq {
            return false;
        }
        i = i + 1;
    }
    proof {
        assert(a.comps() =~= b.comps());
    }
    true
}

/// The number of leading components the two sequences share.
pub open spec fn common_prefix_len(a: Seq<Seq<char>>, b: Seq<Seq<char>>) -> nat
    decreases a.len(),
{
    if a.len() > 0 && b.len() > 0 && a[0] == b[0] {
        1 + common_prefix_len(a.skip(1), b.skip(1))
    } else {
        0
    }
}

/// A run of `k` `..` components.
pub open spec fn parent_run(k: nat) -> Seq<Seq<char>> {
    Seq::new(k, |i: int| parent_component())
}

/// The components of `target` expressed relative to the directory `base`:
/// one `..` for each component of `base` past the shared prefix, then the
/// components of `target` past it.
pub open spec fn spec_relativize(target: Seq<Seq<char>>, base: Seq<Seq<char>>) -> Seq<Seq<char>> {
    let c = common_prefix_len(target, base);
    parent_run((base.len() - c) as nat) + target.skip(c as int)
}

/// The components reached by following `rel` from the directory `base`: `..`
/// steps up, any other component steps down.
pub open spec fn resolve_relative(base: Seq<Seq<char>>, rel: Seq<Seq<char>>) -> Seq<Seq<char>>
    decreases rel.len(),
{
    if rel.len() == 0 {
        base
    } else if rel[0] == parent_component() {
        resolve_relative(
            if base.len() > 0 {
                base.drop_last()
            } else {
                base
            },
            rel.skip(1),
        )
    } else {
        resolve_relative(base.push(rel[0]), rel.skip(1))
    }
}

pub proof fn lemma_common_prefix(a: Seq<Seq<char>>, b: Seq<Seq<char>>)
    ensures
        common_prefix_len(a, b) <= a.len(),
        common_prefix_len(a, b) <= b.len(),
        forall|i: int| 0 <= i < common_prefix_len(a, b) ==> a[i] == b[i],
    decreases a.len(),
{
    if a.len() > 0 && b.len() > 0 && a[0] == b[0] {
        lemma_common_prefix(a.skip(1), b.skip(1));
        assert forall|i: int| 0 <= i < common_prefix_len(a, b) implies a[i] == b[i] by {
            if i > 0 {
                assert(a.skip(1)[i - 1] == b.skip(1)[i - 1]);
            }
        }
    }
}

/// A shared prefix bounded by a first mismatch is exactly the common prefix.
pub proof fn lemma_common_prefix_char(a: Seq<Seq<char>>, b: Seq<Seq<char>>, c: int)
    requires
        0 <= c <= a.len(),
        c <= b.len(),
        forall|i: int| 0 <= i < c ==> a[i] == b[i],
        c == a.len() || c == b.len() || a[c] != b[c],
    ensures
        common_prefix_len(a, b) == c,
    decreases c,
{
    if c == 0 {
        if a.len() > 0 && b.len() > 0 && a[0] == b[0] {
            assert(false);
        }
    } else {
        assert(a[0] == b[0]);
        assert forall|i: int| 0 <= i < c - 1 implies a.skip(1)[i] == b.skip(1)[i] by {
            assert(a[i + 1] == b[i + 1]);
        }
        if c < a.len() && c < b.len() {
            assert(a.skip(1)[c - 1] != b.skip(1)[c - 1]);
        }
        lemma_common_prefix_char(a.skip(1), b.skip(1), c - 1);
    }
}

proof fn lemma_resolve_parents(base: Seq<Seq<char>>, k: nat, rest: Seq<Seq<char>>)
    requires
        k <= base.len(),
    ensures
        resolve_relative(base, parent_run(k) + rest) == resolve_relative(
            base.take(base.len() - k),
            rest,
        ),
    decreases k,
{
    if k == 0 {
        assert(parent_run(0) + rest =~= rest);
        assert(base.take(base.len() as int) =~= base);
    } else {
        let rel = parent_run(k) + rest;
        assert(rel[0] == parent_component());
        assert(rel.len() > 0);
        assert(base.len() > 0);
        assert(rel.skip(1) =~= parent_run((k - 1) as nat) + rest);
        lemma_resolve_parents(base.drop_last(), (k - 1) as nat, rest);
        assert(base.drop_last().take(base.drop_last().len() - (k - 1)) =~= base.take(
            base.len() - k,
        ));
    }
}

proof fn lemma_resolve_descend(base: Seq<Seq<char>>, rest: Seq<Seq<char>>)
    requires
        forall|i: int| 0 <= i < rest.len() ==> #[trigger] rest[i] != parent_component(),
    ensures
        resolve_relative(base, rest) == base + rest,
    decreases rest.len(),
{
    if rest.len() == 0 {
        assert(base + rest =~= base);
    } else {
        assert(rest[0] != parent_component());
        assert forall|i: int| 0 <= i < rest.skip(1).len() implies #[trigger] rest.skip(1)[i]
            != parent_component() by {
            assert(rest.skip(1)[i] == rest[i + 1]);
        }
        lemma_resolve_descend(base.push(rest[0]), rest.skip(1));
        assert(base.push(rest[0]) + rest.skip(1) =~= base + rest);
    }
}

/// Following the relative path from `base` back to `target` reproduces
/// `target`, for any two canonical component sequences.
pub proof fn lemma_relativize_round_trip(target: Seq<Seq<char>>, base: Seq<Seq<char>>)
    requires
        all_plain(target),
    ensures
        resolve_relative(base, spec_relativize(target, base)) == target,
{
    let c = common_prefix_len(target, base) as int;
    lemma_common_prefix(target, base);
    lemma_resolve_parents(base, (base.len() - c) as nat, target.skip(c));
    assert(base.take(c) =~= target.take(c));
    assert forall|i: int| 0 <= i < target.skip(c).len() implies #[trigger] target.skip(c)[i]
        != parent_component() by {
        assert(target.skip(c)[i] == target[i + c]);
        assert(plain_component(target[i + c]));
    }
    lemma_resolve_descend(target.take(c), target.skip(c));
    assert(target.take(c) + target.skip(c) =~= target);
}

/// Whether every component of the path names an entry and the path is rooted.
pub fn is_canonical(p: &LibPath) -> (r: bool)
    ensures
        r == p.canonical(),
{
    if !p.absolute {
        return false;
    }
    let mut i: usize = 0;
    while i < p.components.len()
        invariant
            0 <= i <= p.components.len(),
            p.comps().len() == p.components.len(),
            forall|j: int|
                0 <= j < i ==> wf_component(#[trigger] p.comps()[j]) && plain_component(
                    p.comps()[j],
                ),
        decreases p.components.len() - i,
    {
        let c = &p.components[i];
        proof {
            assert(c@ == p.comps()[i as int]);
        }
        if c.len() == 0 {
            return false;
        }
        if component_is_parent(c) || component_is_cur(c) {
            return false;
        }
        let mut k: usize = 0;
        while k < c.len()
            invariant
                0 <= k <= c.len(),
                0 <= i < p.comps().len(),
                c@ == p.comps()[i as int],
                forall|j: int| 0 <= j < k ==> c@[j] != '/',
            decreases c.len() - k,
        {
            if c[k] == '/' {
                proof {
                    assert(c@.contains('/'));
                }
                return false;
            }
            k = k + 1;
        }
        proof {
            assert(!c@.contains('/'));
        }
        i = i + 1;
    }
    true
}

/// Computes the path of `target` relative to the directory `base`, walking up
/// with `..` components where `target` does not lie under `base`. Defined for
/// canonical paths; on any other pair no relative path is computed.
pub fn relativize(target: &LibPath, base: &LibPath) -> (r: Option<LibPath>)
    ensures
        match r {
            Some(rel) => target.canonical() && base.canonical() && !rel.absolute && rel.comps()
                == spec_relativize(target.comps(), base.comps()),
            None => !(target.canonical() && base.canonical()),
        },
{
    if !is_canonical(target) || !is_canonical(base) {
        return None;
    }
    let t_len = target.components.len();
    let b_len = base.components.len();
    let mut c: usize = 0;
    let mut stop = false;
    while !stop && c < t_len && c < b_len
        invariant
            0 <= c <= t_len,
            c <= b_len,
            t_len == target.comps().len(),
            b_len == base.comps().len(),
            forall|i: int| 0 <= i < c ==> target.comps()[i] == base.comps()[i],
            stop ==> c < t_len && c < b_len && target.comps()[c as int] != base.comps()[c as int],
        decreases t_len - c + (if stop {
            0int
        } else {
            1int
        }),
    {
        let eq = chars_eq(&target.components[c], &base.components[c]);
        proof {
            assert(target.comps()[c as int] =~= target.components@[c as int]@);
            assert(base.comps()[c as int] =~= base.components@[c as int]@);
        }
        if eq {
            c = c + 1;
        } else {
            stop = true;
        }
    }
    proof {
        lemma_common_prefix_char(target.comps(), base.comps(), c as int);
    }
    let mut components: Vec<Vec<char>> = Vec::new();
    let mut k: usize = 0;
    while k < b_len - c
        invariant
            0 <= k <= b_len - c,
            c <= b_len,
            components@.len() == k,
            forall|j: int| 0 <= j < k ==> #[trigger] components@[j].deep_view() == parent_component(),
        decreases b_len - c - k,
    {
        let mut up: Vec<char> = Vec::new();
        up.push('.');
        up.push('.');
        proof {
            assert(up@ =~= parent_component());
        }
        components.push(up);
        k = k + 1;
    }
    let mut i: usize = c;
    while i < t_len
        invariant
            c <= i <= t_len,
            c <= b_len,
            t_len == target.comps().len(),
            components@.len() == (b_len - c) + (i - c),
            forall|j: int|
                0 <= j < b_len - c ==> #[trigger] components@[j].deep_view() == parent_component(),
            forall|j: int|
                b_len - c <= j < components@.len() ==> #[trigger] components@[j].deep_view()
                    == target.comps()[j - (b_len - c) + c],
        decreases t_len - i,
    {
        let comp = clone_chars(&target.components[i]);
        proof {
            assert(comp.deep_view() =~= target.comps()[i as int]);
        }
        components.push(comp);
        i = i + 1;
    }
    proof {
        let spec_rel = spec_relativize(target.comps(), base.comps());
        assert forall|j: int| 0 <= j < components@.len() implies components.deep_view()[j]
            == spec_rel[j] by {
            if j < b_len - c {
                assert(components@[j].deep_view() == parent_component());
            } else {
                assert(components@[j].deep_view() == target.comps()[j - (b_len - c) + c]);
            }
        }
        assert(components.deep_view() =~~= spec_rel);
    }
    Some(LibPath { absolute: false, components })
}

/// The directory that holds the path: the path without its last component.
pub fn parent_dir(p: &LibPath) -> (r: LibPath)
    ensures
        r.absolute == p.absolute,
        r.comps() == if p.comps().len() > 0 {
            p.comps().drop_last()
        } else {
            p.comps()
        },
{
    let mut components = clone_components(&p.components);
    if components.len() > 0 {
        components.pop();
        proof {
            assert(components.deep_view() =~~= p.comps().drop_last());
        }
    }
    LibPath { absolute: p.absolute, components }
}

} // verus!
