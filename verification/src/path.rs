//! Paths of the host file system.
//!
//! A path is the bytes it is written with. Two paths that differ only in repeated or trailing
//! slashes or in `.` components name the same components, and count as the same path.

use vstd::prelude::*;
use vstd::slice::{slice_subrange, slice_to_vec};

verus! {

/// A component of a path, as the order of paths sees it.
pub enum Component {
    RootDir,
    CurDir,
    ParentDir,
    Normal(Seq<u8>),
}

pub open spec fn slash() -> u8 {
    47u8
}

pub open spec fn dot() -> u8 {
    46u8
}

/// The pieces of `path` between slashes, in order.
pub open spec fn segments(path: Seq<u8>) -> Seq<Seq<u8>>
    decreases path.len(),
{
    if path.len() == 0 {
        seq![seq![]]
    } else {
        let before = segments(path.drop_last());
        if path.last() == slash() {
            before.push(seq![])
        } else {
            before.drop_last().push(before.last().push(path.last()))
        }
    }
}

/// What one piece between slashes stands for; empty pieces and `.` stand for nothing.
pub open spec fn segment_components(segment: Seq<u8>) -> Seq<Component> {
    if segment.len() == 0 || segment == seq![dot()] {
        seq![]
    } else if segment == seq![dot(), dot()] {
        seq![Component::ParentDir]
    } else {
        seq![Component::Normal(segment)]
    }
}

/// What the pieces between slashes stand for, in order.
pub open spec fn body_components(pieces: Seq<Seq<u8>>) -> Seq<Component>
    decreases pieces.len(),
{
    if pieces.len() == 0 {
        seq![]
    } else {
        body_components(pieces.drop_last()) + segment_components(pieces.last())
    }
}

/// What the beginning of `path` stands for: the root, or the directory `.`.
pub open spec fn leading_components(path: Seq<u8>) -> Seq<Component> {
    if is_absolute_path(path) {
        seq![Component::RootDir]
    } else if path.len() > 0 && path[0] == dot() && (path.len() == 1 || path[1] == slash()) {
        seq![Component::CurDir]
    } else {
        seq![]
    }
}

/// The components of `path`.
pub open spec fn components(path: Seq<u8>) -> Seq<Component> {
    leading_components(path) + body_components(segments(path))
}

/// `path` starts at the root.
pub open spec fn is_absolute_path(path: Seq<u8>) -> bool {
    path.len() > 0 && path[0] == slash()
}

/// The two paths have the same components.
pub open spec fn same_path(a: Seq<u8>, b: Seq<u8>) -> bool {
    components(a) == components(b)
}

/// The name of the file or directory that `path` ends in.
pub open spec fn file_name(path: Seq<u8>) -> Option<Seq<u8>> {
    let parts = components(path);
    if parts.len() > 0 && parts.last() is Normal {
        Some(parts.last()->Normal_0)
    } else {
        None
    }
}

/// What follows the last dot of the file name, unless that dot is its first character.
pub open spec fn extension(path: Seq<u8>) -> Option<Seq<u8>> {
    match file_name(path) {
        Some(name) => match name.index_of_last(dot()) {
            Some(i) => if i > 0 {
                Some(name.skip(i + 1))
            } else {
                None
            },
            None => None,
        },
        None => None,
    }
}

/// The dictionary order that `less` induces on sequences.
pub open spec fn lex_less<A>(a: Seq<A>, b: Seq<A>, less: spec_fn(A, A) -> bool) -> bool
    decreases a.len(),
{
    if b.len() == 0 {
        false
    } else if a.len() == 0 {
        true
    } else if a[0] == b[0] {
        lex_less(a.drop_first(), b.drop_first(), less)
    } else {
        less(a[0], b[0])
    }
}

/// The order of bytes.
pub open spec fn byte_order() -> spec_fn(u8, u8) -> bool {
    |a: u8, b: u8| a < b
}

/// The place of a component's sort among the sorts of components.
pub open spec fn component_rank(c: Component) -> int {
    match c {
        Component::RootDir => 0,
        Component::CurDir => 1,
        Component::ParentDir => 2,
        Component::Normal(_) => 3,
    }
}

/// Components are ordered by their sort; names by their bytes.
pub open spec fn component_less(a: Component, b: Component) -> bool {
    match (a, b) {
        (Component::Normal(x), Component::Normal(y)) => lex_less(x, y, byte_order()),
        _ => component_rank(a) < component_rank(b),
    }
}

pub open spec fn component_order() -> spec_fn(Component, Component) -> bool {
    |a: Component, b: Component| component_less(a, b)
}

/// Paths are ordered component by component.
pub open spec fn path_less(a: Seq<u8>, b: Seq<u8>) -> bool {
    lex_less(components(a), components(b), component_order())
}

/// The text that a path is shown as when it is not UTF-8: what `String::from_utf8_lossy` makes
/// of its bytes.
pub uninterp spec fn lossy_text(bytes: Seq<u8>) -> Seq<char>;

/// The text that a path is shown as.
pub open spec fn path_text(path: Seq<u8>) -> Seq<char> {
    if vstd::utf8::valid_utf8(path) {
        vstd::utf8::decode_utf8(path)
    } else {
        lossy_text(path)
    }
}

/// The path that `text` writes down.
pub open spec fn text_path(text: Seq<char>) -> Seq<u8> {
    vstd::utf8::encode_utf8(text)
}

/// A path of the host file system.
#[derive(Debug)]
pub struct HostPath {
    pub bytes: Vec<u8>,
}

impl View for HostPath {
    type V = Seq<u8>;

    open spec fn view(&self) -> Seq<u8> {
        self.bytes@
    }
}

impl DeepView for HostPath {
    type V = Seq<u8>;

    open spec fn deep_view(&self) -> Seq<u8> {
        self.bytes@
    }
}

/// One component of a path.
enum Part {
    RootDir,
    CurDir,
    ParentDir,
    Normal(Vec<u8>),
}

impl DeepView for Part {
    type V = Component;

    closed spec fn deep_view(&self) -> Component {
        match self {
            Part::RootDir => Component::RootDir,
            Part::CurDir => Component::CurDir,
            Part::ParentDir => Component::ParentDir,
            Part::Normal(name) => Component::Normal(name@),
        }
    }
}

/// Shows bytes as text. Calls `String::from_utf8_lossy`, which keeps valid UTF-8 as it is and
/// puts replacement characters where the bytes are not UTF-8. What it makes of bytes that are not
/// UTF-8 is only given a name here.
#[verifier::external_body]
fn bytes_to_text(bytes: &[u8]) -> (r: String)
    ensures
        vstd::utf8::valid_utf8(bytes@) ==> r@ == vstd::utf8::decode_utf8(bytes@),
        !vstd::utf8::valid_utf8(bytes@) ==> r@ == lossy_text(bytes@),
{
    String::from_utf8_lossy(bytes).into_owned()
}

/// Whether the two slices hold the same bytes.
pub fn bytes_equal(a: &[u8], b: &[u8]) -> (r: bool)
    ensures
        r == (a@ == b@),
{
    if a.len() != b.len() {
        return false;
    }
    let n: usize = a.len();
    let mut i: usize = 0;
    while i < n
        invariant
            i <= n,
            n == a@.len(),
            n == b@.len(),
            forall|j: int| 0 <= j < i ==> a@[j] == b@[j],
        decreases n - i,
    {
        if a[i] != b[i] {
            assert(a@[i as int] != b@[i as int]);
            return false;
        }
        i += 1;
    }
    assert(a@ =~= b@);
    true
}

fn bytes_less(a: &[u8], b: &[u8]) -> (r: bool)
    ensures
        r == lex_less(a@, b@, byte_order()),
{
    let mut i: usize = 0;
    assert(a@.skip(0) =~= a@);
    assert(b@.skip(0) =~= b@);
    while i < a.len() && i < b.len()
        invariant
            i <= a@.len(),
            i <= b@.len(),
            lex_less(a@, b@, byte_order()) == lex_less(
                a@.skip(i as int),
                b@.skip(i as int),
                byte_order(),
            ),
        decreases a@.len() - i,
    {
        if a[i] != b[i] {
            return a[i] < b[i];
        }
        assert(a@.skip(i as int).drop_first() =~= a@.skip(i + 1));
        assert(b@.skip(i as int).drop_first() =~= b@.skip(i + 1));
        i += 1;
    }
    i < b.len()
}

fn part_equal(a: &Part, b: &Part) -> (r: bool)
    ensures
        r == (a.deep_view() == b.deep_view()),
{
    match (a, b) {
        (Part::RootDir, Part::RootDir) => true,
        (Part::CurDir, Part::CurDir) => true,
        (Part::ParentDir, Part::ParentDir) => true,
        (Part::Normal(x), Part::Normal(y)) => bytes_equal(x.as_slice(), y.as_slice()),
        _ => false,
    }
}

fn part_rank(part: &Part) -> (r: u8)
    ensures
        r == component_rank(part.deep_view()),
{
    match part {
        Part::RootDir => 0,
        Part::CurDir => 1,
        Part::ParentDir => 2,
        Part::Normal(_) => 3,
    }
}

fn part_less(a: &Part, b: &Part) -> (r: bool)
    ensures
        r == component_less(a.deep_view(), b.deep_view()),
{
    match (a, b) {
        (Part::Normal(x), Part::Normal(y)) => bytes_less(x.as_slice(), y.as_slice()),
        _ => part_rank(a) < part_rank(b),
    }
}

/// Whether the parts of one path come before those of another.
fn parts_less(a: &Vec<Part>, b: &Vec<Part>) -> (r: bool)
    ensures
        r == lex_less(a.deep_view(), b.deep_view(), component_order()),
{
    let ghost x = a.deep_view();
    let ghost y = b.deep_view();
    let mut i: usize = 0;
    assert(x.skip(0) =~= x);
    assert(y.skip(0) =~= y);
    while i < a.len() && i < b.len()
        invariant
            x == a.deep_view(),
            y == b.deep_view(),
            i <= a@.len(),
            i <= b@.len(),
            lex_less(x, y, component_order()) == lex_less(
                x.skip(i as int),
                y.skip(i as int),
                component_order(),
            ),
        decreases a@.len() - i,
    {
        assert(x.skip(i as int)[0] == a@[i as int].deep_view());
        assert(y.skip(i as int)[0] == b@[i as int].deep_view());
        if !part_equal(&a[i], &b[i]) {
            return part_less(&a[i], &b[i]);
        }
        assert(x.skip(i as int).drop_first() =~= x.skip(i + 1));
        assert(y.skip(i as int).drop_first() =~= y.skip(i + 1));
        i += 1;
    }
    i < b.len()
}

fn parts_equal(a: &Vec<Part>, b: &Vec<Part>) -> (r: bool)
    ensures
        r == (a.deep_view() == b.deep_view()),
{
    let ghost x = a.deep_view();
    let ghost y = b.deep_view();
    if a.len() != b.len() {
        return false;
    }
    let n: usize = a.len();
    let mut i: usize = 0;
    while i < n
        invariant
            i <= n,
            n == a@.len(),
            n == b@.len(),
            x == a.deep_view(),
            y == b.deep_view(),
            forall|j: int| 0 <= j < i ==> x[j] == y[j],
        decreases n - i,
    {
        if !part_equal(&a[i], &b[i]) {
            assert(x[i as int] != y[i as int]);
            return false;
        }
        i += 1;
    }
    assert(x =~= y);
    true
}

/// Adds to `parts` what the bytes of a piece between slashes stand for.
fn push_segment(parts: &mut Vec<Part>, segment: &[u8])
    ensures
        final(parts).deep_view() == old(parts).deep_view() + segment_components(segment@),
{
    let ghost before = parts.deep_view();
    if segment.len() == 0 || (segment.len() == 1 && segment[0] == 46u8) {
        assert(segment.len() == 1 ==> segment@ =~= seq![dot()]);
        assert(parts.deep_view() =~= before + segment_components(segment@));
    } else if segment.len() == 2 && segment[0] == 46u8 && segment[1] == 46u8 {
        assert(segment@ =~= seq![dot(), dot()]);
        parts.push(Part::ParentDir);
        assert(parts.deep_view() =~= before + segment_components(segment@));
    } else {
        parts.push(Part::Normal(slice_to_vec(segment)));
        assert(parts.deep_view() =~= before + segment_components(segment@));
    }
}

impl HostPath {
    /// The path with these bytes.
    pub fn from_bytes(bytes: Vec<u8>) -> (r: HostPath)
        ensures
            r@ == bytes@,
    {
        HostPath { bytes }
    }

    /// The path that `text` writes down.
    pub fn from_text(text: &str) -> (r: HostPath)
        ensures
            r@ == text_path(text@),
    {
        HostPath { bytes: slice_to_vec(text.as_bytes()) }
    }

    /// The text that the path is shown as.
    pub fn display(&self) -> (r: String)
        ensures
            r@ == path_text(self@),
    {
        bytes_to_text(self.bytes.as_slice())
    }

    /// Whether the path starts at the root.
    pub fn is_absolute(&self) -> (r: bool)
        ensures
            r == is_absolute_path(self@),
    {
        self.bytes.len() > 0 && self.bytes[0] == 47u8
    }

    fn parts(&self) -> (r: Vec<Part>)
        ensures
            r.deep_view() == components(self@),
    {
        let bytes: &[u8] = self.bytes.as_slice();
        let n: usize = bytes.len();
        let mut parts: Vec<Part> = Vec::new();
        if n > 0 && bytes[0] == 47u8 {
            parts.push(Part::RootDir);
        } else if n > 0 && bytes[0] == 46u8 && (n == 1 || bytes[1] == 47u8) {
            parts.push(Part::CurDir);
        }
        let ghost lead = leading_components(self@);
        assert(parts.deep_view() =~= lead);
        let mut start: usize = 0;
        let mut i: usize = 0;
        assert(bytes@.take(0) =~= Seq::<u8>::empty());
        assert(segments(bytes@.take(0)).drop_last() =~= Seq::<Seq<u8>>::empty());
        assert(parts.deep_view() =~= lead + body_components(segments(bytes@.take(0)).drop_last()));
        while i < n
            invariant
                start <= i <= n,
                n == bytes@.len(),
                parts.deep_view() == lead + body_components(
                    segments(bytes@.take(i as int)).drop_last(),
                ),
                segments(bytes@.take(i as int)).len() > 0,
                segments(bytes@.take(i as int)).last() == bytes@.subrange(start as int, i as int),
            decreases n - i,
        {
            let ghost before = segments(bytes@.take(i as int));
            assert(bytes@.take(i + 1).drop_last() =~= bytes@.take(i as int));
            assert(bytes@.take(i + 1).last() == bytes@[i as int]);
            if bytes[i] == 47u8 {
                push_segment(&mut parts, slice_subrange(bytes, start, i));
                start = i + 1;
                proof {
                    assert(segments(bytes@.take(i + 1)).drop_last() =~= before);
                    assert(parts.deep_view() =~= lead + body_components(before));
                }
            } else {
                assert(segments(bytes@.take(i + 1)).drop_last() =~= before.drop_last());
                assert(bytes@.subrange(start as int, i + 1) =~= bytes@.subrange(
                    start as int,
                    i as int,
                ).push(bytes@[i as int]));
            }
            i += 1;
            assert(segments(bytes@.take(i as int)).last() =~= bytes@.subrange(
                start as int,
                i as int,
            ));
        }
        assert(bytes@.take(n as int) =~= bytes@);
        push_segment(&mut parts, slice_subrange(bytes, start, n));
        assert(parts.deep_view() =~= components(self@));
        parts
    }

    /// Whether the two paths have the same components.
    pub fn is_same_path(&self, other: &HostPath) -> (r: bool)
        ensures
            r == same_path(self@, other@),
    {
        parts_equal(&self.parts(), &other.parts())
    }

    /// Whether the path comes before the other in the order of paths.
    pub fn is_before(&self, other: &HostPath) -> (r: bool)
        ensures
            r == path_less(self@, other@),
    {
        parts_less(&self.parts(), &other.parts())
    }

    /// Whether the extension of the path is `wanted`.
    pub fn has_extension(&self, wanted: &str) -> (r: bool)
        ensures
            r == (extension(self@) == Some(text_path(wanted@))),
    {
        let parts = self.parts();
        let ghost names = parts.deep_view();
        if parts.len() == 0 {
            return false;
        }
        let last: usize = parts.len() - 1;
        assert(names.last() == parts@[last as int].deep_view());
        match &parts[last] {
            Part::Normal(name) => {
                let mut i: usize = name.len();
                while i > 0 && name[i - 1] != 46u8
                    invariant
                        i <= name@.len(),
                        forall|j: int| i <= j < name@.len() ==> name@[j] != dot(),
                    decreases i,
                {
                    i -= 1;
                }
                proof {
                    name@.index_of_last_ensures(dot());
                    if i > 0 {
                        assert(name@[i - 1] == dot());
                        assert(name@.contains(name@[i - 1]));
                    }
                }
                if i <= 1 {
                    return false;
                }
                let found = slice_subrange(name.as_slice(), i, name.len());
                assert(found@ =~= name@.skip(i as int));
                bytes_equal(found, wanted.as_bytes())
            },
            _ => false,
        }
    }
}

impl Clone for HostPath {
    fn clone(&self) -> (r: HostPath)
        ensures
            r@ == self@,
    {
        HostPath { bytes: slice_to_vec(self.bytes.as_slice()) }
    }
}

impl PartialEq for HostPath {
    fn eq(&self, other: &HostPath) -> (r: bool) {
        self.is_same_path(other)
    }
}

impl vstd::std_specs::cmp::PartialEqSpecImpl for HostPath {
    open spec fn obeys_eq_spec() -> bool {
        true
    }

    open spec fn eq_spec(&self, other: &HostPath) -> bool {
        same_path(self@, other@)
    }
}

/// A slash parts the pieces before it from those behind it.
pub proof fn lemma_segments_around_slash(a: Seq<u8>, b: Seq<u8>)
    ensures
        segments(a + seq![slash()] + b) == segments(a) + segments(b),
        segments(b).len() > 0,
    decreases b.len(),
{
    let path = a + seq![slash()] + b;
    if b.len() == 0 {
        assert(path.drop_last() =~= a);
        assert(segments(path) =~= segments(a) + segments(b));
    } else {
        lemma_segments_around_slash(a, b.drop_last());
        assert(path.drop_last() =~= a + seq![slash()] + b.drop_last());
        assert(segments(path) =~= segments(a) + segments(b));
    }
}

/// What pieces stand for does not depend on the pieces around them.
pub proof fn lemma_body_components_of_both(x: Seq<Seq<u8>>, y: Seq<Seq<u8>>)
    ensures
        body_components(x + y) == body_components(x) + body_components(y),
    decreases y.len(),
{
    if y.len() == 0 {
        assert(x + y =~= x);
        assert(body_components(x) + body_components(y) =~= body_components(x));
    } else {
        lemma_body_components_of_both(x, y.drop_last());
        assert((x + y).drop_last() =~= x + y.drop_last());
        assert(body_components(x + y) =~= body_components(x) + body_components(y));
    }
}

proof fn lemma_components_around_slash(a: Seq<u8>, b: Seq<u8>)
    requires
        a.len() > 0,
    ensures
        components(a + seq![slash()] + b) == components(a) + body_components(segments(b)),
{
    let path = a + seq![slash()] + b;
    lemma_segments_around_slash(a, b);
    lemma_body_components_of_both(segments(a), segments(b));
    assert(path[0] == a[0]);
    assert(a.len() > 1 ==> path[1] == a[1]);
    assert(a.len() == 1 ==> path[1] == slash());
    assert(leading_components(path) == leading_components(a));
    assert(components(path) =~= components(a) + body_components(segments(b)));
}

/// Behind the first byte of a path, a slash at its end, a repeated slash and a `.` between
/// slashes change nothing.
pub proof fn law_slashes_and_dots_do_not_matter(a: Seq<u8>, b: Seq<u8>)
    requires
        a.len() > 0,
    ensures
        same_path(a + seq![slash()], a),
        same_path(a + seq![slash(), slash()] + b, a + seq![slash()] + b),
        same_path(a + seq![slash(), dot(), slash()] + b, a + seq![slash()] + b),
{
    let none: Seq<u8> = seq![];
    let one_dot = seq![dot()];
    assert(segments(none) =~= seq![none]);
    assert(one_dot.drop_last() =~= none);
    assert(segments(one_dot) =~= seq![one_dot]);
    assert(body_components(segments(none)) =~= Seq::<Component>::empty()) by {
        reveal_with_fuel(body_components, 2);
        assert(segments(none).drop_last() =~= Seq::<Seq<u8>>::empty());
        assert(segment_components(none) =~= Seq::<Component>::empty());
    }
    assert(body_components(segments(one_dot)) =~= Seq::<Component>::empty()) by {
        reveal_with_fuel(body_components, 2);
        assert(segments(one_dot).drop_last() =~= Seq::<Seq<u8>>::empty());
        assert(segment_components(one_dot) =~= Seq::<Component>::empty());
    }
    lemma_components_around_slash(a, none);
    assert(a + seq![slash()] + none =~= a + seq![slash()]);
    assert(components(a + seq![slash()]) =~= components(a));
    lemma_components_around_slash(a, b);
    lemma_components_around_slash(a + seq![slash()], b);
    assert(a + seq![slash()] + seq![slash()] + b =~= a + seq![slash(), slash()] + b);
    let dotted = a + seq![slash()] + one_dot;
    lemma_components_around_slash(a, one_dot);
    lemma_components_around_slash(dotted, b);
    assert(components(dotted) =~= components(a));
    assert(dotted + seq![slash()] + b =~= a + seq![slash(), dot(), slash()] + b);
}

} // verus!
