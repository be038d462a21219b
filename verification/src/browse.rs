//! Browsing the host's files within allowed roots.
//!
//! A client may list the session's working directory and what the operator
//! configured besides, and nothing else. The operating system resolves paths;
//! what is here decides what may be listed and what the answer is.

use vstd::prelude::*;
use vstd::string::StringExecFns;

use crate::instant;
use crate::ranking::{self, Rank, Ranked};
use crate::text;
use crate::text_set;

verus! {

// ---------------------------------------------------------------------------
// Text

/// The text of some bytes; what is not UTF-8 is replaced.
pub uninterp spec fn lossy_text(bytes: Seq<u8>) -> Seq<char>;

/// `String::from_utf8_lossy`: the text that `lossy_text` names. Bytes that are
/// UTF-8 give exactly the characters they encode.
#[verifier::external_body]
fn lossy(bytes: &[u8]) -> (r: String)
    ensures
        r@ == lossy_text(bytes@),
        vstd::utf8::valid_utf8(bytes@) ==> r@ == vstd::utf8::decode_utf8(bytes@),
{
    String::from_utf8_lossy(bytes).into_owned()
}

/// What is shown for some bytes: the characters they encode where they are
/// UTF-8, and otherwise a text in which what is not UTF-8 is replaced.
pub open spec fn shown_text(bytes: Seq<u8>) -> Seq<char> {
    if vstd::utf8::valid_utf8(bytes) {
        vstd::utf8::decode_utf8(bytes)
    } else {
        lossy_text(bytes)
    }
}

fn show(bytes: &[u8]) -> (r: String)
    ensures
        r@ == shown_text(bytes@),
{
    lossy(bytes)
}

/// What is UTF-8 is shown as it is: the bytes of what is shown are the ones it
/// stands for, and so no two of them look the same.
pub proof fn utf8_is_shown_as_it_is(bytes: Seq<u8>, other: Seq<u8>)
    requires
        vstd::utf8::valid_utf8(bytes),
        vstd::utf8::valid_utf8(other),
    ensures
        vstd::utf8::encode_utf8(shown_text(bytes)) == bytes,
        shown_text(bytes) == shown_text(other) ==> bytes == other,
{
    vstd::utf8::decode_utf8_encode_utf8(bytes);
    vstd::utf8::decode_utf8_encode_utf8(other);
}

/// A text in lower case.
pub uninterp spec fn lowercase(text: Seq<char>) -> Seq<char>;

/// `str::to_lowercase`: the text that `lowercase` names.
#[verifier::external_body]
fn to_lowercase(text: &str) -> (r: String)
    ensures
        r@ == lowercase(text@),
{
    text.to_lowercase()
}

/// The texts of a list with `", "` between them.
pub open spec fn listing(list: Seq<Seq<char>>) -> Seq<char>
    decreases list.len(),
{
    if list.len() == 0 {
        Seq::empty()
    } else if list.len() == 1 {
        list[0]
    } else {
        listing(list.drop_last()) + ", "@ + list.last()
    }
}

fn join_listing(list: &Vec<String>) -> (r: String)
    ensures
        r@ == listing(text::views(list@)),
{
    let ghost all = text::views(list@);
    let mut out = String::new();
    let mut i: usize = 0;
    assert(all.take(0) =~= Seq::<Seq<char>>::empty());
    while i < list.len()
        invariant
            i <= list@.len(),
            all == text::views(list@),
            out@ == listing(all.take(i as int)),
        decreases list@.len() - i,
    {
        assert(all.take(i + 1).drop_last() =~= all.take(i as int));
        assert(all.take(i + 1).last() == list@[i as int]@);
        if i > 0 {
            out.append(", ");
        }
        out.append(list[i].as_str());
        if i == 0 {
            assert(out@ =~= list@[0]@);
        }
        i = i + 1;
    }
    assert(all.take(list@.len() as int) =~= all);
    out
}

// ---------------------------------------------------------------------------
// Resolved paths

/// Whether some bytes name one step of a resolved path: they are not empty,
/// hold no slash, and are neither `.` nor `..`.
pub open spec fn is_step(name: Seq<u8>) -> bool {
    name.len() > 0 && !name.contains(47u8) && name != seq![46u8] && name != seq![46u8, 46u8]
}

/// Whether every step of a path is one.
pub open spec fn are_steps(steps: Seq<Seq<u8>>) -> bool {
    forall|i: int| 0 <= i < steps.len() ==> is_step(#[trigger] steps[i])
}

/// Each step behind a slash.
pub open spec fn slashed(steps: Seq<Seq<u8>>) -> Seq<u8>
    decreases steps.len(),
{
    if steps.len() == 0 {
        Seq::empty()
    } else {
        slashed(steps.drop_last()) + seq![47u8] + steps.last()
    }
}

/// The bytes of a resolved path. The root is a slash alone.
pub open spec fn spelled(steps: Seq<Seq<u8>>) -> Seq<u8> {
    if steps.len() == 0 {
        seq![47u8]
    } else {
        slashed(steps)
    }
}

/// The stretches of some bytes between slashes, empty ones included.
pub open spec fn segments(bytes: Seq<u8>) -> Seq<Seq<u8>>
    decreases bytes.len(),
{
    if bytes.len() == 0 {
        seq![Seq::<u8>::empty()]
    } else {
        let init = segments(bytes.drop_last());
        if bytes.last() == 47 {
            init.push(Seq::empty())
        } else {
            init.drop_last().push(init.last().push(bytes.last()))
        }
    }
}

/// The steps of a resolved path, or `None` if the bytes are none: a slash, and
/// then steps with a single slash between them.
pub open spec fn steps_of(bytes: Seq<u8>) -> Option<Seq<Seq<u8>>> {
    if bytes.len() == 0 || bytes[0] != 47 {
        None
    } else if bytes.len() == 1 {
        Some(Seq::empty())
    } else if are_steps(segments(bytes.skip(1))) {
        Some(segments(bytes.skip(1)))
    } else {
        None
    }
}

proof fn lemma_segments_not_empty(bytes: Seq<u8>)
    ensures
        segments(bytes).len() > 0,
    decreases bytes.len(),
{
    if bytes.len() > 0 {
        lemma_segments_not_empty(bytes.drop_last());
    }
}

proof fn lemma_segments_step(front: Seq<u8>, name: Seq<u8>)
    requires
        !name.contains(47u8),
    ensures
        segments(front + seq![47u8] + name) == segments(front).push(name),
    decreases name.len(),
{
    lemma_segments_not_empty(front);
    let all = front + seq![47u8] + name;
    if name.len() == 0 {
        assert(all.drop_last() =~= front);
        assert(name =~= Seq::<u8>::empty());
    } else {
        let init = name.drop_last();
        assert forall|k: int| 0 <= k < init.len() implies init[k] != 47 by {
            assert(name[k] == init[k]);
            assert(name.contains(name[k]));
        }
        lemma_segments_step(front, init);
        assert(all.drop_last() =~= front + seq![47u8] + init);
        assert(all.last() == name.last());
        assert(name.contains(name.last()));
        assert(segments(front).push(init).drop_last() =~= segments(front));
        assert(init.push(name.last()) =~= name);
    }
}

proof fn lemma_segments_plain(name: Seq<u8>)
    requires
        !name.contains(47u8),
    ensures
        segments(name) == seq![name],
    decreases name.len(),
{
    if name.len() == 0 {
        assert(name =~= Seq::<u8>::empty());
    } else {
        let init = name.drop_last();
        assert forall|k: int| 0 <= k < init.len() implies init[k] != 47 by {
            assert(name[k] == init[k]);
            assert(name.contains(name[k]));
        }
        lemma_segments_plain(init);
        assert(name.contains(name.last()));
        assert(init.push(name.last()) =~= name);
        assert(seq![init].drop_last().push(init.push(name.last())) =~= seq![name]);
    }
}

proof fn lemma_segments_of_slashed(steps: Seq<Seq<u8>>)
    requires
        steps.len() > 0,
        are_steps(steps),
    ensures
        slashed(steps).len() > 1,
        slashed(steps)[0] == 47,
        segments(slashed(steps).skip(1)) == steps,
    decreases steps.len(),
{
    let init = steps.drop_last();
    let last = steps.last();
    assert(is_step(steps[steps.len() - 1]));
    assert(are_steps(init)) by {
        assert forall|i: int| 0 <= i < init.len() implies is_step(#[trigger] init[i]) by {
            assert(init[i] == steps[i]);
        }
    }
    if init.len() == 0 {
        assert(slashed(init) =~= Seq::<u8>::empty());
        assert(slashed(steps) =~= seq![47u8] + last);
        assert(slashed(steps).skip(1) =~= last);
        lemma_segments_plain(last);
        assert(steps =~= seq![last]);
    } else {
        lemma_segments_of_slashed(init);
        let front = slashed(init).skip(1);
        assert(slashed(steps).skip(1) =~= front + seq![47u8] + last);
        lemma_segments_step(front, last);
        assert(init.push(last) =~= steps);
    }
}

/// The bytes of a resolved path determine its steps.
pub proof fn spelled_paths_read_back(steps: Seq<Seq<u8>>)
    requires
        are_steps(steps),
    ensures
        steps_of(spelled(steps)) == Some(steps),
{
    if steps.len() > 0 {
        lemma_segments_of_slashed(steps);
    } else {
        assert(steps =~= Seq::<Seq<u8>>::empty());
    }
}

proof fn lemma_slashed_of_segments(bytes: Seq<u8>)
    ensures
        slashed(segments(bytes)) == seq![47u8] + bytes,
    decreases bytes.len(),
{
    if bytes.len() == 0 {
        let one = seq![Seq::<u8>::empty()];
        assert(one.drop_last() =~= Seq::<Seq<u8>>::empty());
        assert(slashed(one.drop_last()) =~= Seq::<u8>::empty());
        assert(slashed(one) =~= seq![47u8]);
        assert(seq![47u8] + bytes =~= seq![47u8]);
    } else {
        let init = bytes.drop_last();
        lemma_segments_not_empty(init);
        lemma_slashed_of_segments(init);
        let segs = segments(init);
        if bytes.last() == 47 {
            assert(segs.push(Seq::<u8>::empty()).drop_last() =~= segs);
            assert(slashed(segments(bytes)) =~= seq![47u8] + bytes);
        } else {
            let grown = segs.last().push(bytes.last());
            assert(segs.drop_last().push(grown).drop_last() =~= segs.drop_last());
            assert(slashed(segments(bytes)) =~= slashed(segs).push(bytes.last()));
            assert(slashed(segments(bytes)) =~= seq![47u8] + bytes);
        }
    }
}

/// Bytes that are a resolved path are spelled by their steps.
pub proof fn read_paths_spell_back(bytes: Seq<u8>)
    requires
        steps_of(bytes) is Some,
    ensures
        spelled(steps_of(bytes)->0) == bytes,
        are_steps(steps_of(bytes)->0),
{
    if bytes.len() == 1 {
        assert(bytes =~= seq![47u8]);
    } else {
        lemma_slashed_of_segments(bytes.skip(1));
        lemma_segments_not_empty(bytes.skip(1));
        assert(seq![47u8] + bytes.skip(1) =~= bytes);
    }
}

/// The views of a list of byte strings.
pub open spec fn byte_views(list: Seq<Vec<u8>>) -> Seq<Seq<u8>> {
    list.map_values(|v: Vec<u8>| v@)
}

/// A path as the operating system resolved it: absolute, without links, `.` or
/// `..`, as the list of its steps from the root.
#[derive(Debug, Clone, PartialEq, Eq)]
pub struct CanonicalPath {
    steps: Vec<Vec<u8>>,
}

impl View for CanonicalPath {
    type V = Seq<Seq<u8>>;

    closed spec fn view(&self) -> Seq<Seq<u8>> {
        byte_views(self.steps@)
    }
}

fn copy_bytes(bytes: &[u8]) -> (r: Vec<u8>)
    ensures
        r@ == bytes@,
{
    vstd::slice::slice_to_vec(bytes)
}

fn same_bytes(a: &Vec<u8>, b: &Vec<u8>) -> (r: bool)
    ensures
        r == (a@ == b@),
{
    if a.len() != b.len() {
        return false;
    }
    let mut i: usize = 0;
    while i < a.len()
        invariant
            i <= a@.len(),
            a@.len() == b@.len(),
            forall|j: int| 0 <= j < i ==> a@[j] == b@[j],
        decreases a@.len() - i,
    {
        if a[i] != b[i] {
            return false;
        }
        i = i + 1;
    }
    assert(a@ =~= b@);
    true
}

fn names_a_step(name: &Vec<u8>) -> (r: bool)
    ensures
        r == is_step(name@),
{
    let n = name.len();
    if n == 0 {
        return false;
    }
    if n == 1 && name[0] == 46 {
        assert(name@ =~= seq![46u8]);
        return false;
    }
    if n == 2 && name[0] == 46 && name[1] == 46 {
        assert(name@ =~= seq![46u8, 46u8]);
        return false;
    }
    assert(name@ == seq![46u8] ==> name@[0] == 46 && n == 1);
    assert(name@ == seq![46u8, 46u8] ==> name@[0] == 46 && name@[1] == 46 && n == 2);
    let mut i: usize = 0;
    while i < name.len()
        invariant
            i <= name@.len(),
            forall|j: int| 0 <= j < i ==> name@[j] != 47,
        decreases name@.len() - i,
    {
        if name[i] == 47 {
            assert(name@.contains(47u8));
            return false;
        }
        i = i + 1;
    }
    assert(!name@.contains(47u8));
    true
}

impl CanonicalPath {
    /// The path with these bytes, if they are those of a resolved path.
    pub fn from_bytes(bytes: &[u8]) -> (r: Option<CanonicalPath>)
        ensures
            match r {
                Some(path) => steps_of(bytes@) == Some(path@),
                None => steps_of(bytes@) is None,
            },
    {
        if bytes.len() == 0 || bytes[0] != 47 {
            return None;
        }
        let mut steps: Vec<Vec<u8>> = Vec::new();
        if bytes.len() == 1 {
            assert(byte_views(steps@) =~= Seq::<Seq<u8>>::empty());
            return Some(CanonicalPath { steps });
        }
        let ghost rest = bytes@.skip(1);
        let mut name: Vec<u8> = Vec::new();
        let mut i: usize = 1;
        assert(rest.take(0) =~= Seq::<u8>::empty());
        assert(byte_views(steps@).push(name@) =~= seq![Seq::<u8>::empty()]);
        while i < bytes.len()
            invariant
                1 <= i <= bytes@.len(),
                rest == bytes@.skip(1),
                segments(rest.take(i - 1)) == byte_views(steps@).push(name@),
            decreases bytes@.len() - i,
        {
            let b: u8 = bytes[i];
            let ghost before = steps@;
            let ghost named = name@;
            assert(rest.take(i as int).drop_last() =~= rest.take(i - 1));
            assert(rest.take(i as int).last() == b);
            if b == 47 {
                let mut done: Vec<u8> = Vec::new();
                std::mem::swap(&mut done, &mut name);
                steps.push(done);
                assert(byte_views(steps@) =~= byte_views(before).push(named));
                assert(name@ =~= Seq::<u8>::empty());
            } else {
                name.push(b);
                assert(byte_views(before).push(named).drop_last() =~= byte_views(before));
            }
            i = i + 1;
        }
        assert(rest.take(bytes@.len() - 1) =~= rest);
        let ghost before = steps@;
        let ghost named = name@;
        steps.push(name);
        assert(byte_views(steps@) =~= byte_views(before).push(named));
        let mut k: usize = 0;
        while k < steps.len()
            invariant
                k <= steps@.len(),
                byte_views(steps@) == segments(rest),
                rest == bytes@.skip(1),
                bytes@.len() > 1,
                bytes@[0] == 47,
                forall|j: int| 0 <= j < k ==> is_step(#[trigger] byte_views(steps@)[j]),
            decreases steps@.len() - k,
        {
            if !names_a_step(&steps[k]) {
                assert(!is_step(byte_views(steps@)[k as int]));
                return None;
            }
            k = k + 1;
        }
        Some(CanonicalPath { steps })
    }

    /// The bytes of the path.
    pub fn spell(&self) -> (r: Vec<u8>)
        ensures
            r@ == spelled(self@),
    {
        let mut out: Vec<u8> = Vec::new();
        if self.steps.len() == 0 {
            out.push(47);
            assert(out@ =~= seq![47u8]);
            return out;
        }
        let mut i: usize = 0;
        assert(self@.take(0) =~= Seq::<Seq<u8>>::empty());
        assert(out@ =~= slashed(self@.take(0)));
        while i < self.steps.len()
            invariant
                i <= self.steps@.len(),
                out@ == slashed(self@.take(i as int)),
            decreases self.steps@.len() - i,
        {
            push_step(&mut out, &self.steps[i]);
            assert(self@.take(i + 1).drop_last() =~= self@.take(i as int));
            assert(self@.take(i + 1).last() == self.steps@[i as int]@);
            i = i + 1;
        }
        assert(self@.take(self.steps@.len() as int) =~= self@);
        out
    }

    /// The path as text.
    pub fn to_text(&self) -> (r: String)
        ensures
            r@ == shown_text(spelled(self@)),
    {
        show(self.spell().as_slice())
    }

    /// Whether the path lies at or below `root`: the root's steps begin it.
    pub fn starts_with(&self, root: &CanonicalPath) -> (r: bool)
        ensures
            r == root@.is_prefix_of(self@),
    {
        if root.steps.len() > self.steps.len() {
            return false;
        }
        let mut i: usize = 0;
        while i < root.steps.len()
            invariant
                i <= root.steps@.len(),
                root.steps@.len() <= self.steps@.len(),
                forall|j: int| 0 <= j < i ==> root@[j] == self@[j],
            decreases root.steps@.len() - i,
        {
            if !same_bytes(&root.steps[i], &self.steps[i]) {
                assert(root@[i as int] != self@[i as int]);
                return false;
            }
            i = i + 1;
        }
        true
    }

    /// Whether two paths are the same.
    pub fn same(&self, other: &CanonicalPath) -> (r: bool)
        ensures
            r == (self@ == other@),
    {
        let r = self.steps.len() == other.steps.len() && self.starts_with(other);
        assert(self@.len() == self.steps@.len() && other@.len() == other.steps@.len());
        assert(r ==> self@ =~= other@);
        assert(self@ == other@ ==> other@.is_prefix_of(self@));
        r
    }

    /// The directory that holds the path; the root has none.
    pub fn parent(&self) -> (r: Option<CanonicalPath>)
        ensures
            match r {
                Some(p) => self@.len() > 0 && p@ == self@.drop_last(),
                None => self@.len() == 0,
            },
    {
        if self.steps.len() == 0 {
            return None;
        }
        let n: usize = self.steps.len() - 1;
        let mut steps: Vec<Vec<u8>> = Vec::new();
        let mut i: usize = 0;
        assert(byte_views(steps@) =~= self@.take(0));
        while i < n
            invariant
                i <= n,
                n < self.steps@.len(),
                byte_views(steps@) == self@.take(i as int),
            decreases n - i,
        {
            let ghost before = steps@;
            steps.push(copy_bytes(self.steps[i].as_slice()));
            assert(byte_views(steps@) =~= byte_views(before).push(self@[i as int]));
            assert(self@.take(i + 1) =~= self@.take(i as int).push(self@[i as int]));
            i = i + 1;
        }
        assert(self@.take(n as int) =~= self@.drop_last());
        Some(CanonicalPath { steps })
    }

    /// The last step as text; the root is shown as a whole.
    pub fn shown_name(&self) -> (r: String)
        ensures
            r@ == shown_name(self@),
    {
        if self.steps.len() == 0 {
            return self.to_text();
        }
        let last = &self.steps[self.steps.len() - 1];
        assert(self@.last() == last@);
        show(last.as_slice())
    }
}

fn push_step(out: &mut Vec<u8>, step: &Vec<u8>)
    ensures
        final(out)@ == old(out)@ + seq![47u8] + step@,
{
    out.push(47);
    let ghost start = out@;
    let mut k: usize = 0;
    assert(start + step@.take(0) =~= start);
    while k < step.len()
        invariant
            k <= step@.len(),
            out@ == start + step@.take(k as int),
        decreases step@.len() - k,
    {
        out.push(step[k]);
        assert(start + step@.take(k + 1) =~= (start + step@.take(k as int)).push(step@[k as int]));
        k = k + 1;
    }
    assert(step@.take(step@.len() as int) =~= step@);
    assert(out@ =~= old(out)@ + seq![47u8] + step@);
}

/// The last step of a path as text; the root is shown as a whole.
pub open spec fn shown_name(path: Seq<Seq<u8>>) -> Seq<char> {
    if path.len() == 0 {
        shown_text(spelled(path))
    } else {
        shown_text(path.last())
    }
}

// ---------------------------------------------------------------------------
// Roots

/// The views of a list of paths.
pub open spec fn path_views(paths: Seq<CanonicalPath>) -> Seq<Seq<Seq<u8>>> {
    paths.map_values(|p: CanonicalPath| p@)
}

/// Whether a path lies at or below one of the roots.
pub open spec fn within(path: Seq<Seq<u8>>, roots: Seq<Seq<Seq<u8>>>) -> bool {
    exists|i: int| 0 <= i < roots.len() && (#[trigger] roots[i]).is_prefix_of(path)
}

/// Containment test on a resolved path.
pub fn is_within_roots(canonical: &CanonicalPath, roots: &Vec<CanonicalPath>) -> (r: bool)
    ensures
        r == within(canonical@, path_views(roots@)),
        forall|i: int|
            0 <= i < roots@.len() && (#[trigger] roots@[i])@.is_prefix_of(canonical@) ==> r,
        r ==> exists|i: int| 0 <= i < roots@.len() && (#[trigger] roots@[i])@.is_prefix_of(canonical@),
{
    let mut i: usize = 0;
    while i < roots.len()
        invariant
            i <= roots@.len(),
            forall|j: int|
                0 <= j < i ==> !(#[trigger] path_views(roots@)[j]).is_prefix_of(canonical@),
        decreases roots@.len() - i,
    {
        if canonical.starts_with(&roots[i]) {
            assert(path_views(roots@)[i as int].is_prefix_of(canonical@));
            return true;
        }
        i = i + 1;
    }
    assert forall|j: int| 0 <= j < roots@.len() implies !(#[trigger] roots@[j])@.is_prefix_of(
        canonical@,
    ) by {
        assert(path_views(roots@)[j] == roots@[j]@);
    }
    false
}

/// A name that merely begins like a root's does not lie inside it: where two
/// names differ, neither directory contains what is below the other.
pub proof fn siblings_are_outside(
    dir: Seq<Seq<u8>>,
    name: Seq<u8>,
    other: Seq<u8>,
    below: Seq<Seq<u8>>,
)
    requires
        name != other,
    ensures
        !within(dir.push(other) + below, seq![dir.push(name)]),
{
    let path = dir.push(other) + below;
    let roots = seq![dir.push(name)];
    if within(path, roots) {
        assert(roots[0].is_prefix_of(path));
        assert(dir.push(name)[dir.len() as int] == path[dir.len() as int]);
    }
}

/// What is below a directory within the roots is within them too.
pub proof fn subdirectories_are_inside(
    path: Seq<Seq<u8>>,
    below: Seq<Seq<u8>>,
    roots: Seq<Seq<Seq<u8>>>,
)
    requires
        within(path, roots),
    ensures
        within(path + below, roots),
{
    let i = choose|i: int| 0 <= i < roots.len() && (#[trigger] roots[i]).is_prefix_of(path);
    let root = roots[i];
    assert forall|k: int| 0 <= k < root.len() implies root[k] == (path + below)[k] by {
        assert(root[k] == path[k]);
    }
    assert(roots[i].is_prefix_of(path + below));
}

/// The roots that an operator wrote: separated by colons, trimmed, without the
/// blank ones.
pub open spec fn written_roots(raw: Seq<char>) -> Seq<Seq<char>> {
    text::listed(text::pieces(raw, ':'))
}

/// A colon separates roots: those of two texts with a colon between them are
/// those of the first and then those of the second. A text without a colon is
/// one root, trimmed, or none if it is blank.
pub proof fn colons_separate_roots(a: Seq<char>, b: Seq<char>)
    ensures
        written_roots(a + seq![':'] + b) == written_roots(a) + written_roots(b),
        !a.contains(':') ==> written_roots(a) == (if forall|i: int|
            0 <= i < a.len() ==> text::white(#[trigger] a[i]) {
            Seq::empty()
        } else {
            seq![text::trimmed(a)]
        }),
{
    text::pieces_stand_between_separators(a, b, ':');
    text::lists_follow_one_another(text::pieces(a, ':'), text::pieces(b, ':'));
    text::listing_keeps_what_is_not_blank(Seq::empty(), a);
    assert(Seq::<Seq<char>>::empty().push(a) =~= seq![a]);
    assert(Seq::<Seq<char>>::empty().push(text::trimmed(a)) =~= seq![text::trimmed(a)]);
}

/// The roots that the operator configured, as they are written: separated by
/// colons, trimmed, without the blank ones.
pub fn configured_roots(configured: Option<String>) -> (r: Vec<String>)
    ensures
        configured matches Some(raw) ==> text::views(r@) == written_roots(raw@),
        configured is None ==> r@.len() == 0,
        text::views(r@) == (match configured {
            Some(raw) => text::listed(text::pieces(raw@, ':')),
            None => Seq::empty(),
        }),
{
    match configured {
        Some(raw) => {
            let parts = text::split(raw.as_str(), ':');
            text::trim_all(&parts)
        },
        None => {
            let none: Vec<String> = Vec::new();
            assert(text::views(none@) =~= Seq::<Seq<char>>::empty());
            none
        },
    }
}

/// The candidates that resolved, each once, in order.
pub open spec fn resolved_roots(candidates: Seq<Option<CanonicalPath>>) -> Seq<Seq<Seq<u8>>>
    decreases candidates.len(),
{
    if candidates.len() == 0 {
        Seq::empty()
    } else {
        let init = resolved_roots(candidates.drop_last());
        match candidates.last() {
            Some(path) => if init.contains(path@) {
                init
            } else {
                init.push(path@)
            },
            None => init,
        }
    }
}

/// The roots of a session, from what resolving its working directory and the
/// configured roots gave: those that did not resolve are dropped, and so are
/// repetitions.
pub fn browse_roots(candidates: Vec<Option<CanonicalPath>>) -> (r: Vec<CanonicalPath>)
    ensures
        path_views(r@) == resolved_roots(candidates@),
{
    let mut out: Vec<CanonicalPath> = Vec::new();
    assert(candidates@.take(0) =~= Seq::<Option<CanonicalPath>>::empty());
    assert(path_views(out@) =~= Seq::<Seq<Seq<u8>>>::empty());
    for candidate in it: candidates
        invariant
            it.seq() == candidates@,
            path_views(out@) == resolved_roots(candidates@.take(it.index())),
    {
        let ghost k = it.index();
        assert(candidates@.take(k + 1).drop_last() =~= candidates@.take(k));
        assert(candidates@.take(k + 1).last() == candidate);
        if let Some(path) = candidate {
            let mut known = false;
            let mut i: usize = 0;
            while i < out.len()
                invariant
                    i <= out@.len(),
                    known == exists|j: int| 0 <= j < i && #[trigger] path_views(out@)[j] == path@,
                decreases out@.len() - i,
            {
                if out[i].same(&path) {
                    known = true;
                    assert(path_views(out@)[i as int] == path@);
                }
                i = i + 1;
            }
            assert(known == path_views(out@).contains(path@));
            let ghost before = out@;
            if !known {
                out.push(path);
                assert(path_views(out@) =~= path_views(before).push(path@));
            }
        }
    }
    assert(candidates@.take(candidates@.len() as int) =~= candidates@);
    out
}

/// Whether a candidate resolved to a path.
pub open spec fn resolves_to(candidate: Option<CanonicalPath>, root: Seq<Seq<u8>>) -> bool {
    candidate matches Some(path) && path@ == root
}

/// The roots are without repetition, and they are exactly the candidates that
/// resolved.
pub proof fn roots_are_resolved_candidates(candidates: Seq<Option<CanonicalPath>>)
    ensures
        resolved_roots(candidates).no_duplicates(),
        forall|root: Seq<Seq<u8>>| #[trigger]
            resolved_roots(candidates).contains(root) <==> exists|k: int|
                0 <= k < candidates.len() && #[trigger] resolves_to(candidates[k], root),
    decreases candidates.len(),
{
    if candidates.len() > 0 {
        let init = candidates.drop_last();
        let before = resolved_roots(init);
        let now = resolved_roots(candidates);
        let n = candidates.len() - 1;
        roots_are_resolved_candidates(init);
        assert forall|root: Seq<Seq<u8>>| #[trigger] now.contains(root) <==> exists|k: int|
            0 <= k < candidates.len() && #[trigger] resolves_to(candidates[k], root) by {
            if now.contains(root) {
                if before.contains(root) {
                    let k = choose|k: int|
                        0 <= k < init.len() && #[trigger] resolves_to(init[k], root);
                    assert(resolves_to(candidates[k], root));
                } else {
                    let m = choose|m: int| 0 <= m < now.len() && now[m] == root;
                    assert(m == before.len());
                    assert(resolves_to(candidates[n], root));
                }
            }
            if exists|k: int| 0 <= k < candidates.len() && #[trigger] resolves_to(
                candidates[k],
                root,
            ) {
                let k = choose|k: int|
                    0 <= k < candidates.len() && #[trigger] resolves_to(candidates[k], root);
                if k < n {
                    assert(resolves_to(init[k], root));
                    assert(before.contains(root));
                    let m = choose|m: int| 0 <= m < before.len() && before[m] == root;
                    assert(now[m] == root);
                } else if !before.contains(root) {
                    assert(now[before.len() as int] == root);
                }
            }
        }
    }
}

// ---------------------------------------------------------------------------
// Listing

/// One row of a listing.
#[derive(Debug, Clone, PartialEq, Eq)]
pub struct DirectoryEntry {
    pub name: String,
    pub path: String,
    pub is_dir: bool,
    /// The size of what is not a directory.
    pub size: Option<u64>,
    /// When it was last changed, as RFC 3339 text.
    pub modified: Option<String>,
    pub is_symlink: bool,
}

/// One row as mathematical values.
pub struct EntryView {
    pub name: Seq<char>,
    pub path: Seq<char>,
    pub is_dir: bool,
    pub size: Option<u64>,
    pub modified: Option<Seq<char>>,
    pub is_symlink: bool,
}

impl View for DirectoryEntry {
    type V = EntryView;

    open spec fn view(&self) -> EntryView {
        EntryView {
            name: self.name@,
            path: self.path@,
            is_dir: self.is_dir,
            size: self.size,
            modified: match self.modified {
                Some(m) => Some(m@),
                None => None,
            },
            is_symlink: self.is_symlink,
        }
    }
}

/// The views of a list of rows.
pub open spec fn entry_views(entries: Seq<DirectoryEntry>) -> Seq<EntryView> {
    entries.map_values(|e: DirectoryEntry| e@)
}

/// The answer to a listing request.
#[derive(Debug, Clone, PartialEq, Eq)]
pub struct ListDirectoryResponse {
    /// The directory that is listed; empty where the roots are.
    pub path: String,
    /// The directory above it, where it may be listed too.
    pub parent: Option<String>,
    pub entries: Vec<DirectoryEntry>,
    pub roots: Vec<String>,
}

/// Why a listing request is refused, with the text to show.
#[derive(Debug, Clone, PartialEq, Eq)]
pub enum ListError {
    NotFound(String),
    InvalidParams(String),
    Internal(String),
}

/// Why a listing request is refused, with the characters of the text.
pub enum ListErrorView {
    NotFound(Seq<char>),
    InvalidParams(Seq<char>),
    Internal(Seq<char>),
}

impl View for ListError {
    type V = ListErrorView;

    open spec fn view(&self) -> ListErrorView {
        match self {
            ListError::NotFound(m) => ListErrorView::NotFound(m@),
            ListError::InvalidParams(m) => ListErrorView::InvalidParams(m@),
            ListError::Internal(m) => ListErrorView::Internal(m@),
        }
    }
}

/// What the file system says of what a directory entry leads to.
#[derive(Debug, Clone, Copy)]
pub struct ItemMeta {
    pub is_dir: bool,
    pub len: u64,
    /// When it was last changed, if that is known: seconds and nanoseconds
    /// since the unix epoch.
    pub modified: Option<(i64, u32)>,
}

/// An entry that was read from a directory.
#[derive(Debug, Clone)]
pub struct DirItem {
    pub name: Vec<u8>,
    /// Whether it is a symbolic link, if that is known.
    pub is_symlink: Option<bool>,
    /// What it leads to, if that is known.
    pub meta: Option<ItemMeta>,
}

impl DirItem {
    /// The time of the last change, where it is known, lies in the calendar.
    pub open spec fn wf(&self) -> bool {
        self.meta matches Some(m) ==> (m.modified matches Some(at) ==> instant::in_calendar(at))
    }
}

/// What to do next about a listing request.
pub enum ListPlan {
    /// Resolve this path.
    Resolve(String),
    /// Find out whether this path is a directory.
    Inspect(CanonicalPath),
    /// Read this directory.
    Read(CanonicalPath),
    /// Answer.
    Answer(ListDirectoryResponse),
    /// Refuse.
    Refuse(ListError),
}

/// The roots as texts.
pub open spec fn root_texts(roots: Seq<Seq<Seq<u8>>>) -> Seq<Seq<char>> {
    roots.map_values(|r: Seq<Seq<u8>>| shown_text(spelled(r)))
}

/// The row of a root.
pub open spec fn root_entry(root: Seq<Seq<u8>>) -> EntryView {
    EntryView {
        name: shown_name(root),
        path: shown_text(spelled(root)),
        is_dir: true,
        size: None,
        modified: None,
        is_symlink: false,
    }
}

/// The row of an entry of the directory `dir`. A link is described by what it
/// leads to.
pub open spec fn item_entry(dir: Seq<Seq<u8>>, item: DirItem) -> EntryView {
    let is_dir = item.meta matches Some(m) && m.is_dir;
    EntryView {
        name: shown_text(item.name@),
        path: shown_text(spelled(dir.push(item.name@))),
        is_dir,
        size: match item.meta {
            Some(m) => if is_dir {
                None
            } else {
                Some(m.len)
            },
            None => None,
        },
        modified: match item.meta {
            Some(m) => match m.modified {
                Some((secs, nanos)) => Some(instant::instant_text(secs, nanos)),
                None => None,
            },
            None => None,
        },
        is_symlink: item.is_symlink == Some(true),
    }
}

/// The name and the path of an entry are listed as they are where they are
/// UTF-8; and so are those of a root.
pub proof fn utf8_entries_are_listed_as_they_are(dir: Seq<Seq<u8>>, item: DirItem)
    ensures
        vstd::utf8::valid_utf8(item.name@) ==> vstd::utf8::encode_utf8(item_entry(dir, item).name)
            == item.name@,
        vstd::utf8::valid_utf8(spelled(dir.push(item.name@))) ==> vstd::utf8::encode_utf8(
            item_entry(dir, item).path,
        ) == spelled(dir.push(item.name@)),
        vstd::utf8::valid_utf8(spelled(dir)) ==> vstd::utf8::encode_utf8(root_entry(dir).path)
            == spelled(dir),
        dir.len() > 0 && vstd::utf8::valid_utf8(dir.last()) ==> vstd::utf8::encode_utf8(
            root_entry(dir).name,
        ) == dir.last(),
{
    broadcast use vstd::utf8::decode_utf8_encode_utf8;

}

fn texts_of(roots: &Vec<CanonicalPath>) -> (r: Vec<String>)
    ensures
        text::views(r@) == root_texts(path_views(roots@)),
{
    let ghost all = root_texts(path_views(roots@));
    let mut out: Vec<String> = Vec::new();
    let mut i: usize = 0;
    assert(text::views(out@) =~= all.take(0));
    while i < roots.len()
        invariant
            i <= roots@.len(),
            all == root_texts(path_views(roots@)),
            text::views(out@) == all.take(i as int),
        decreases roots@.len() - i,
    {
        let ghost before = out@;
        assert(all[i as int] == shown_text(spelled(roots@[i as int]@)));
        out.push(roots[i].to_text());
        assert(text::views(out@) =~= text::views(before).push(all[i as int]));
        assert(all.take(i + 1) =~= all.take(i as int).push(all[i as int]));
        i = i + 1;
    }
    assert(all.take(roots@.len() as int) =~= all);
    out
}

/// The answer that enumerates the roots, so that a client learns where it may
/// browse.
pub fn roots_response(roots: &Vec<CanonicalPath>) -> (r: ListDirectoryResponse)
    ensures
        r.path@.len() == 0,
        r.parent is None,
        entry_views(r.entries@) == path_views(roots@).map_values(
            |p: Seq<Seq<u8>>| root_entry(p),
        ),
        text::views(r.roots@) == root_texts(path_views(roots@)),
{
    let ghost all = path_views(roots@).map_values(|p: Seq<Seq<u8>>| root_entry(p));
    let mut entries: Vec<DirectoryEntry> = Vec::new();
    let mut i: usize = 0;
    assert(entry_views(entries@) =~= all.take(0));
    while i < roots.len()
        invariant
            i <= roots@.len(),
            all == path_views(roots@).map_values(|p: Seq<Seq<u8>>| root_entry(p)),
            entry_views(entries@) == all.take(i as int),
        decreases roots@.len() - i,
    {
        let ghost before = entries@;
        let entry = DirectoryEntry {
            name: roots[i].shown_name(),
            path: roots[i].to_text(),
            is_dir: true,
            size: None,
            modified: None,
            is_symlink: false,
        };
        assert(all[i as int] == root_entry(roots@[i as int]@));
        entries.push(entry);
        assert(entry_views(entries@) =~= entry_views(before).push(all[i as int]));
        assert(all.take(i + 1) =~= all.take(i as int).push(all[i as int]));
        i = i + 1;
    }
    assert(all.take(roots@.len() as int) =~= all);
    ListDirectoryResponse { path: String::new(), parent: None, entries, roots: texts_of(roots) }
}

/// Whether an answer enumerates the roots.
pub open spec fn enumerates(answer: ListDirectoryResponse, roots: Seq<Seq<Seq<u8>>>) -> bool {
    &&& answer.path@.len() == 0
    &&& answer.parent is None
    &&& entry_views(answer.entries@) == roots.map_values(|p: Seq<Seq<u8>>| root_entry(p))
    &&& text::views(answer.roots@) == root_texts(roots)
}

/// How a listing request begins.
pub open spec fn begins(
    session_id: Seq<char>,
    known: bool,
    roots: Seq<Seq<Seq<u8>>>,
    path: Option<Seq<char>>,
    plan: ListPlan,
) -> bool {
    let requested = match path {
        Some(p) => text::trimmed(p),
        None => Seq::empty(),
    };
    if !known {
        plan matches ListPlan::Refuse(e) && e@ == ListErrorView::NotFound(
            "Session not found: "@ + session_id,
        )
    } else if requested.len() == 0 {
        plan matches ListPlan::Answer(a) && enumerates(a, roots)
    } else {
        plan matches ListPlan::Resolve(p) && p@ == requested
    }
}

/// Begins a listing request: a session that is not known is refused, and a
/// request without a path, or with a blank one, is answered with the roots.
pub fn begin_listing(
    session_id: &str,
    known: bool,
    roots: &Vec<CanonicalPath>,
    path: Option<&str>,
) -> (r: ListPlan)
    ensures
        begins(
            session_id@,
            known,
            path_views(roots@),
            match path {
                Some(p) => Some(p@),
                None => None,
            },
            r,
        ),
{
    if !known {
        return ListPlan::Refuse(
            ListError::NotFound(text::concat("Session not found: ", session_id)),
        );
    }
    match path {
        Some(p) => {
            let requested = text::trim(p);
            if requested.is_empty() {
                ListPlan::Answer(roots_response(roots))
            } else {
                ListPlan::Resolve(requested.to_owned())
            }
        },
        None => ListPlan::Answer(roots_response(roots)),
    }
}

/// How a listing request goes on once the path was resolved.
pub open spec fn goes_on(
    requested: Seq<char>,
    resolved: Result<CanonicalPath, String>,
    roots: Seq<Seq<Seq<u8>>>,
    plan: ListPlan,
) -> bool {
    match resolved {
        Err(reason) => plan matches ListPlan::Refuse(e) && e@ == ListErrorView::NotFound(
            "Cannot resolve "@ + requested + ": "@ + reason@,
        ),
        Ok(path) => if within(path@, roots) {
            plan == ListPlan::Inspect(path)
        } else {
            plan matches ListPlan::Refuse(e) && e@ == ListErrorView::InvalidParams(
                "Path is outside the browsable roots ("@ + listing(root_texts(roots)) + "): "@
                    + shown_text(spelled(path@)),
            )
        },
    }
}

/// Goes on once the path was resolved: one that does not resolve, or lies
/// outside the roots, is refused.
pub fn after_resolving(
    requested: &str,
    resolved: Result<CanonicalPath, String>,
    roots: &Vec<CanonicalPath>,
) -> (r: ListPlan)
    ensures
        goes_on(requested@, resolved, path_views(roots@), r),
{
    match resolved {
        Err(reason) => {
            let mut msg = text::concat3("Cannot resolve ", requested, ": ");
            msg.append(reason.as_str());
            ListPlan::Refuse(ListError::NotFound(msg))
        },
        Ok(path) => {
            if !is_within_roots(&path, roots) {
                let texts = texts_of(roots);
                let listed = join_listing(&texts);
                let mut msg = text::concat3(
                    "Path is outside the browsable roots (",
                    listed.as_str(),
                    "): ",
                );
                msg.append(path.to_text().as_str());
                return ListPlan::Refuse(ListError::InvalidParams(msg));
            }
            ListPlan::Inspect(path)
        },
    }
}

/// How a listing request goes on once it is known whether the path is a
/// directory.
pub open spec fn inspected(path: CanonicalPath, is_dir: bool, plan: ListPlan) -> bool {
    if is_dir {
        plan == ListPlan::Read(path)
    } else {
        plan matches ListPlan::Refuse(e) && e@ == ListErrorView::InvalidParams(
            "Not a directory: "@ + shown_text(spelled(path@)),
        )
    }
}

/// A directory is read, and it is the one that was asked for; anything else is
/// refused and not read.
pub proof fn only_directories_are_read(
    path: CanonicalPath,
    is_dir: bool,
    plan: ListPlan,
)
    requires
        inspected(path, is_dir, plan),
    ensures
        plan is Read <==> is_dir,
        plan matches ListPlan::Read(p) ==> p == path,
        plan is Read || plan is Refuse,
{
}

/// Goes on once it is known whether the path is a directory: one that is not is
/// refused.
pub fn after_inspecting(path: CanonicalPath, is_dir: bool) -> (r: ListPlan)
    ensures
        inspected(path, is_dir, r),
        if is_dir {
            r == ListPlan::Read(path)
        } else {
            r matches ListPlan::Refuse(e) && e@ == ListErrorView::InvalidParams(
                "Not a directory: "@ + shown_text(spelled(path@)),
            )
        },
{
    if !is_dir {
        let shown = path.to_text();
        return ListPlan::Refuse(
            ListError::InvalidParams(text::concat("Not a directory: ", shown.as_str())),
        );
    }
    ListPlan::Read(path)
}

/// How rows are ordered: directories first, then by name in lower case.
pub struct EntryRank {
    pub is_dir: bool,
    pub name: String,
}

impl View for EntryRank {
    type V = (bool, Seq<char>);

    open spec fn view(&self) -> (bool, Seq<char>) {
        (self.is_dir, self.name@)
    }
}

/// Whether a row of rank `a` stands ahead of one of rank `b`.
pub open spec fn row_ahead(a: (bool, Seq<char>), b: (bool, Seq<char>)) -> bool {
    if a.0 != b.0 {
        a.0
    } else {
        text_set::before(a.1, b.1)
    }
}

impl Rank for EntryRank {
    open spec fn ahead(a: (bool, Seq<char>), b: (bool, Seq<char>)) -> bool {
        row_ahead(a, b)
    }

    proof fn is_total_order() {
        let ahead = |a: (bool, Seq<char>), b: (bool, Seq<char>)| EntryRank::ahead(a, b);
        assert forall|a: (bool, Seq<char>), b: (bool, Seq<char>)| #[trigger] ahead(a, b) implies
            !ahead(b, a) by {
            if a.0 == b.0 && text_set::before(b.1, a.1) {
                text_set::before_is_transitive(a.1, b.1, a.1);
                text_set::before_is_irreflexive(a.1);
            }
        }
        assert forall|a: (bool, Seq<char>), b: (bool, Seq<char>), c: (bool, Seq<char>)|
            !#[trigger] ahead(a, b) && !#[trigger] ahead(b, c) implies !ahead(a, c) by {
            if a.0 == b.0 && b.0 == c.0 {
                text_set::before_is_total(a.1, b.1);
                text_set::before_is_total(b.1, c.1);
                if a.1 != b.1 && b.1 != c.1 {
                    text_set::before_is_transitive(c.1, b.1, a.1);
                }
                if text_set::before(a.1, c.1) && text_set::before(c.1, a.1) {
                    text_set::before_is_transitive(a.1, c.1, a.1);
                    text_set::before_is_irreflexive(a.1);
                }
            }
        }
        assert forall|a: (bool, Seq<char>), b: (bool, Seq<char>)|
            a == b || #[trigger] ahead(a, b) || ahead(b, a) by {
            text_set::before_is_total(a.1, b.1);
        }
    }

    fn is_ahead(&self, other: &EntryRank) -> (r: bool) {
        if self.is_dir != other.is_dir {
            self.is_dir
        } else {
            text_set::stands_before(self.name.as_str(), other.name.as_str())
        }
    }
}

/// The rows of a listing with the ranks by which they are ordered.
pub open spec fn ranked_entries(entries: Seq<EntryView>) -> Seq<((bool, Seq<char>), EntryView)> {
    entries.map_values(|e: EntryView| ((e.is_dir, lowercase(e.name)), e))
}

/// Whether `sorted` are the rows of `entries` in order: directories first, then
/// by name in lower case; rows of equal rank keep their order.
pub open spec fn rows_in_order(entries: Seq<EntryView>, sorted: Seq<EntryView>) -> bool {
    ranking::ordered_from(
        ranking::order_of::<EntryRank>(),
        ranked_entries(entries),
        ranked_entries(sorted),
    )
}

/// Puts the rows of a listing in order.
pub fn sort_entries(entries: Vec<DirectoryEntry>) -> (r: Vec<DirectoryEntry>)
    ensures
        rows_in_order(entry_views(entries@), entry_views(r@)),
{
    let mut list: Vec<Ranked<EntryRank, DirectoryEntry>> = Vec::new();
    for entry in it: entries
        invariant
            it.seq() == entries@,
            list@.len() == it.index(),
            forall|j: int|
                0 <= j < it.index() ==> (#[trigger] list@[j]).item == entries@[j]
                    && list@[j].rank@ == (entries@[j].is_dir, lowercase(entries@[j].name@)),
    {
        let rank = EntryRank { is_dir: entry.is_dir, name: to_lowercase(entry.name.as_str()) };
        list.push(Ranked { rank, item: entry });
    }
    let sorted = ranking::put_in_order(list);
    let ghost whole = sorted@;
    let mut out: Vec<DirectoryEntry> = Vec::new();
    for x in it: sorted
        invariant
            it.seq() == whole,
            out@.len() == it.index(),
            forall|j: int| 0 <= j < it.index() ==> #[trigger] out@[j] == whole[j].item,
    {
        out.push(x.item);
    }
    proof {
        let ahead = ranking::order_of::<EntryRank>();
        let view = |e: DirectoryEntry| e@;
        let a = ranking::ranks(list@);
        let b = ranking::ranks(whole);
        assert forall|j: int| 0 <= j < b.len() implies (#[trigger] b[j]).0 == (
            b[j].1.is_dir,
            lowercase(b[j].1.name@),
        ) by {
            ranking::ordered_items_were_there(ahead, a, b, j);
            let k = choose|k: int| 0 <= k < a.len() && a[k] == b[j];
            assert(a[k] == (list@[k].rank@, list@[k].item));
        }
        ranking::ordering_commutes_with_mapping(ahead, a, b, view);
        assert(ranking::mapped(a, view) =~= ranked_entries(entry_views(entries@)));
        assert forall|j: int| 0 <= j < out@.len() implies #[trigger] ranked_entries(
            entry_views(out@),
        )[j] == ranking::mapped(b, view)[j] by {
            assert(b[j] == (whole[j].rank@, whole[j].item));
            assert(out@[j] == whole[j].item);
        }
        assert(ranking::mapped(b, view) =~= ranked_entries(entry_views(out@)));
    }
    out
}

/// Directories come before everything else in a listing.
pub proof fn directories_come_first(
    entries: Seq<EntryView>,
    sorted: Seq<EntryView>,
    i: int,
    j: int,
)
    requires
        rows_in_order(entries, sorted),
        0 <= i < j < sorted.len(),
    ensures
        sorted[j].is_dir ==> sorted[i].is_dir,
{
    let ranked = ranked_entries(sorted);
    let (a, b) = (ranked[i].0, ranked[j].0);
    assert(a.0 == sorted[i].is_dir && b.0 == sorted[j].is_dir);
    assert(!(ranking::order_of::<EntryRank>())(b, a));
}

fn entry_of(dir: &CanonicalPath, item: &DirItem) -> (r: DirectoryEntry)
    requires
        item.wf(),
    ensures
        r@ == item_entry(dir@, *item),
{
    let mut path: Vec<u8> = Vec::new();
    if dir.steps.len() > 0 {
        path = dir.spell();
    }
    push_step(&mut path, &item.name);
    proof {
        let full = dir@.push(item.name@);
        assert(full.drop_last() =~= dir@);
        assert(slashed(dir@) =~= if dir@.len() == 0 { Seq::empty() } else { spelled(dir@) });
        assert(path@ =~= spelled(full));
    }
    let is_symlink = match item.is_symlink {
        Some(b) => b,
        None => false,
    };
    let mut is_dir = false;
    let mut size: Option<u64> = None;
    let mut modified: Option<String> = None;
    if let Some(meta) = item.meta {
        is_dir = meta.is_dir;
        if !is_dir {
            size = Some(meta.len);
        }
        if let Some((secs, nanos)) = meta.modified {
            modified = Some(instant::format_instant(secs, nanos));
        }
    }
    DirectoryEntry {
        name: show(item.name.as_slice()),
        path: show(path.as_slice()),
        is_dir,
        size,
        modified,
        is_symlink,
    }
}

/// The rows of the entries of a directory, in the order they were read.
pub open spec fn item_entries(dir: Seq<Seq<u8>>, items: Seq<DirItem>) -> Seq<EntryView> {
    items.map_values(|i: DirItem| item_entry(dir, i))
}

/// The parent that an answer offers: the directory above, while it stays within
/// the roots, so that a client cannot walk out one directory at a time.
pub open spec fn offered_parent(dir: Seq<Seq<u8>>, roots: Seq<Seq<Seq<u8>>>) -> Option<Seq<char>> {
    if dir.len() > 0 && within(dir.drop_last(), roots) {
        Some(shown_text(spelled(dir.drop_last())))
    } else {
        None
    }
}

/// A client cannot walk out of the roots upwards: the parent that is offered,
/// as a path, lies within them, and nothing is offered above a directory whose
/// parent does not.
pub proof fn parents_stay_inside(dir: Seq<Seq<u8>>, roots: Seq<Seq<Seq<u8>>>)
    ensures
        match offered_parent(dir, roots) {
            Some(p) => within(dir.drop_last(), roots) && p == shown_text(
                spelled(dir.drop_last()),
            ),
            None => dir.len() == 0 || !within(dir.drop_last(), roots),
        },
{
}

/// Whether `answer` is the listing of the directory `dir`.
pub open spec fn lists(
    answer: ListDirectoryResponse,
    dir: Seq<Seq<u8>>,
    roots: Seq<Seq<Seq<u8>>>,
    items: Seq<DirItem>,
) -> bool {
    &&& answer.path@ == shown_text(spelled(dir))
    &&& match answer.parent {
        Some(p) => offered_parent(dir, roots) == Some(p@),
        None => offered_parent(dir, roots) is None,
    }
    &&& rows_in_order(item_entries(dir, items), entry_views(answer.entries@))
    &&& text::views(answer.roots@) == root_texts(roots)
}

/// Answers once the directory was read; a failure to read is reported.
pub fn after_reading(
    path: &CanonicalPath,
    roots: &Vec<CanonicalPath>,
    read: Result<Vec<DirItem>, String>,
) -> (r: Result<ListDirectoryResponse, ListError>)
    requires
        read matches Ok(items) ==> forall|i: int|
            0 <= i < items@.len() ==> (#[trigger] items@[i]).wf(),
    ensures
        match (read, r) {
            (Ok(items), Ok(answer)) => lists(answer, path@, path_views(roots@), items@),
            (Err(reason), Err(e)) => e@ == ListErrorView::Internal(reason@),
            _ => false,
        },
{
    let items = match read {
        Err(reason) => {
            return Err(ListError::Internal(reason));
        },
        Ok(items) => items,
    };
    let ghost all = item_entries(path@, items@);
    let mut entries: Vec<DirectoryEntry> = Vec::new();
    let mut i: usize = 0;
    assert(entry_views(entries@) =~= all.take(0));
    while i < items.len()
        invariant
            i <= items@.len(),
            forall|j: int| 0 <= j < items@.len() ==> (#[trigger] items@[j]).wf(),
            all == item_entries(path@, items@),
            entry_views(entries@) == all.take(i as int),
        decreases items@.len() - i,
    {
        let ghost before = entries@;
        assert(items@[i as int].wf());
        let entry = entry_of(path, &items[i]);
        assert(all[i as int] == entry@);
        entries.push(entry);
        assert(entry_views(entries@) =~= entry_views(before).push(all[i as int]));
        assert(all.take(i + 1) =~= all.take(i as int).push(all[i as int]));
        i = i + 1;
    }
    assert(all.take(items@.len() as int) =~= all);
    let parent = match path.parent() {
        Some(p) => {
            if is_within_roots(&p, roots) {
                Some(p.to_text())
            } else {
                None
            }
        },
        None => None,
    };
    Ok(
        ListDirectoryResponse {
            path: path.to_text(),
            parent,
            entries: sort_entries(entries),
            roots: texts_of(roots),
        },
    )
}

// ---------------------------------------------------------------------------
// What holds of browsing

/// Every root counts, wherever in the list it stands: the root itself and
/// whatever lies below it is inside.
pub proof fn every_root_counts(roots: Seq<Seq<Seq<u8>>>, i: int, below: Seq<Seq<u8>>)
    requires
        0 <= i < roots.len(),
    ensures
        within(roots[i], roots),
        within(roots[i] + below, roots),
{
    assert(roots[i].is_prefix_of(roots[i]));
    assert(roots[i].is_prefix_of(roots[i] + below));
}

/// A path that no root of the list begins, step by step, is outside.
pub proof fn paths_below_no_root_are_outside(path: Seq<Seq<u8>>, roots: Seq<Seq<Seq<u8>>>)
    requires
        forall|i: int, below: Seq<Seq<u8>>|
            0 <= i < roots.len() ==> path != #[trigger] (#[trigger] roots[i] + below),
    ensures
        !within(path, roots),
{
    assert forall|i: int| 0 <= i < roots.len() implies !(#[trigger] roots[i]).is_prefix_of(path) by {
        if roots[i].is_prefix_of(path) {
            let below = path.skip(roots[i].len() as int);
            assert(path =~= roots[i] + below);
        }
    }
}

/// More roots take nothing away, and a path that is inside more roots but was
/// not inside before lies below the new one.
pub proof fn more_roots_offer_more(
    path: Seq<Seq<u8>>,
    roots: Seq<Seq<Seq<u8>>>,
    root: Seq<Seq<u8>>,
)
    ensures
        within(path, roots.push(root)) <==> within(path, roots) || within(path, seq![root]),
        !within(path, Seq::empty()),
{
    let more = roots.push(root);
    if within(path, roots) {
        let i = choose|i: int| 0 <= i < roots.len() && (#[trigger] roots[i]).is_prefix_of(path);
        assert(more[i].is_prefix_of(path));
    }
    if within(path, seq![root]) {
        assert(seq![root][0].is_prefix_of(path));
        assert(more[roots.len() as int].is_prefix_of(path));
    }
    if within(path, more) {
        let i = choose|i: int| 0 <= i < more.len() && (#[trigger] more[i]).is_prefix_of(path);
        if i < roots.len() {
            assert(roots[i].is_prefix_of(path));
        } else {
            assert(seq![root][0].is_prefix_of(path));
        }
    }
}

/// The roots are told one after the other, each of them and in order, with a
/// comma and a space between two.
pub proof fn each_root_is_told(list: Seq<Seq<char>>, x: Seq<char>)
    ensures
        listing(Seq::empty()) == Seq::<char>::empty(),
        listing(seq![x]) == x,
        list.len() > 0 ==> listing(list.push(x)) == listing(list) + ", "@ + x,
{
    assert(list.push(x).drop_last() =~= list);
}

/// A path is spelled step by step: each step stands behind a slash, and the root
/// is a slash alone.
pub proof fn steps_stand_behind_slashes(dir: Seq<Seq<u8>>, name: Seq<u8>)
    ensures
        spelled(Seq::empty()) == seq![0x2fu8],
        dir.len() == 0 ==> spelled(dir.push(name)) == seq![0x2fu8] + name,
        dir.len() > 0 ==> spelled(dir.push(name)) == spelled(dir) + seq![0x2fu8] + name,
{
    assert(dir.push(name).drop_last() =~= dir);
    if dir.len() == 0 {
        assert(slashed(dir) =~= Seq::<u8>::empty());
        assert(spelled(dir.push(name)) =~= seq![0x2fu8] + name);
    }
}

/// The candidates become roots one by one, in order: one that did not resolve,
/// or is a root already, changes nothing, and any other is added at the end.
pub proof fn roots_come_in_order(
    candidates: Seq<Option<CanonicalPath>>,
    path: CanonicalPath,
)
    ensures
        resolved_roots(Seq::empty()) == Seq::<Seq<Seq<u8>>>::empty(),
        resolved_roots(candidates.push(None)) == resolved_roots(candidates),
        (exists|k: int| 0 <= k < candidates.len() && #[trigger] resolves_to(candidates[k], path@))
            ==> resolved_roots(candidates.push(Some(path))) == resolved_roots(candidates),
        !(exists|k: int| 0 <= k < candidates.len() && #[trigger] resolves_to(candidates[k], path@))
            ==> resolved_roots(candidates.push(Some(path))) == resolved_roots(candidates).push(
            path@,
        ),
{
    assert(candidates.push(None).drop_last() =~= candidates);
    assert(candidates.push(Some(path)).drop_last() =~= candidates);
    roots_are_resolved_candidates(candidates);
}

/// A row says what the file system says of an entry: whether it leads to a
/// directory, how long it is if it does not, when it was changed, and whether it
/// is a link. What is not known is left out.
pub proof fn rows_say_what_is_known(dir: Seq<Seq<u8>>, item: DirItem, meta: ItemMeta)
    ensures
        ({
            let row = item_entry(dir, DirItem { meta: Some(meta), ..item });
            &&& row.is_dir == meta.is_dir
            &&& (row.size is Some) == !meta.is_dir
            &&& row.size matches Some(n) ==> n == meta.len
            &&& (row.modified is Some) == (meta.modified is Some)
            &&& meta.modified matches Some(at) ==> row.modified == Some(
                instant::instant_text(at.0, at.1),
            )
            &&& row.is_symlink <==> item.is_symlink is Some && item.is_symlink->0
        }),
        ({
            let row = item_entry(dir, DirItem { meta: None, ..item });
            !row.is_dir && row.size is None && row.modified is None
        }),
        ({
            let root = root_entry(dir);
            root.is_dir && root.size is None && root.modified is None && !root.is_symlink
        }),
{
}

/// The rows of a listing are those of the directory, each as often as it was
/// read: none is lost and none is made up.
pub proof fn listings_show_every_entry(entries: Seq<EntryView>, sorted: Seq<EntryView>)
    requires
        rows_in_order(entries, sorted),
    ensures
        sorted.len() == entries.len(),
        forall|e: EntryView| #[trigger] sorted.contains(e) <==> entries.contains(e),
{
    let ahead = ranking::order_of::<EntryRank>();
    let (a, b) = (ranked_entries(entries), ranked_entries(sorted));
    ranking::ordering_is_a_permutation(ahead, a, b);
    assert(b.to_multiset() == a.to_multiset());
    assert(a.len() == entries.len() && b.len() == sorted.len());
    broadcast use vstd::seq_lib::group_to_multiset_ensures;

    assert(a.to_multiset().len() == a.len());
    assert(b.to_multiset().len() == b.len());
    assert forall|e: EntryView| #[trigger] sorted.contains(e) <==> entries.contains(e) by {
        let r = ((e.is_dir, lowercase(e.name)), e);
        if sorted.contains(e) {
            let k = choose|k: int| 0 <= k < sorted.len() && sorted[k] == e;
            assert(b[k] == r);
            assert(b.contains(r));
            assert(b.to_multiset().count(r) > 0);
            assert(a.to_multiset().count(r) > 0);
            assert(a.contains(r));
            let m = choose|m: int| 0 <= m < a.len() && a[m] == r;
            assert(entries[m] == e);
        }
        if entries.contains(e) {
            let k = choose|k: int| 0 <= k < entries.len() && entries[k] == e;
            assert(a[k] == r);
            assert(a.contains(r));
            assert(a.to_multiset().count(r) > 0);
            assert(b.to_multiset().count(r) > 0);
            assert(b.contains(r));
            let m = choose|m: int| 0 <= m < b.len() && b[m] == r;
            assert(sorted[m] == e);
        }
    }
}

/// Among directories, and among what is none, the rows stand by name in lower
/// case, as in a dictionary.
pub proof fn names_stand_in_order(
    entries: Seq<EntryView>,
    sorted: Seq<EntryView>,
    i: int,
    j: int,
)
    requires
        rows_in_order(entries, sorted),
        0 <= i < j < sorted.len(),
        sorted[i].is_dir == sorted[j].is_dir,
    ensures
        lowercase(sorted[i].name) == lowercase(sorted[j].name) || text_set::before(
            lowercase(sorted[i].name),
            lowercase(sorted[j].name),
        ),
{
    let ranked = ranked_entries(sorted);
    let (a, b) = (ranked[i].0, ranked[j].0);
    assert(a == (sorted[i].is_dir, lowercase(sorted[i].name)));
    assert(b == (sorted[j].is_dir, lowercase(sorted[j].name)));
    assert(!(ranking::order_of::<EntryRank>())(b, a));
    text_set::before_is_total(a.1, b.1);
}

/// The directory above is offered exactly where some root begins it; at the top
/// of every root nothing is.
pub proof fn parents_below_a_root_are_offered(
    roots: Seq<Seq<Seq<u8>>>,
    i: int,
    below: Seq<Seq<u8>>,
    name: Seq<u8>,
)
    requires
        0 <= i < roots.len(),
    ensures
        offered_parent((roots[i] + below).push(name), roots) == Some(
            shown_text(spelled(roots[i] + below)),
        ),
        offered_parent(Seq::empty(), roots) is None,
{
    every_root_counts(roots, i, below);
    assert((roots[i] + below).push(name).drop_last() =~= roots[i] + below);
}

/// A request that names a path has that path resolved, without the white space
/// around it and as it is otherwise. A request that names none, or white space
/// alone, is answered with every root, in order and as a directory. A session
/// that is not known is refused whatever it asks for.
pub proof fn requests_ask_for_a_path_or_the_roots(
    session_id: Seq<char>,
    roots: Seq<Seq<Seq<u8>>>,
    front: Seq<char>,
    path: Seq<char>,
    back: Seq<char>,
    plan: ListPlan,
    unnamed: ListPlan,
    unknown: ListPlan,
)
    requires
        forall|i: int| 0 <= i < front.len() ==> text::white(#[trigger] front[i]),
        forall|i: int| 0 <= i < back.len() ==> text::white(#[trigger] back[i]),
        path.len() > 0 ==> !text::white(path[0]) && !text::white(path.last()),
        begins(session_id, true, roots, Some(front + path + back), plan),
        begins(session_id, true, roots, None, unnamed),
        begins(session_id, false, roots, Some(front + path + back), unknown),
    ensures
        path.len() > 0 ==> plan is Resolve && plan->Resolve_0@ == path,
        path.len() == 0 ==> plan is Answer,
        unknown is Refuse,
        unknown->Refuse_0@ == ListErrorView::NotFound("Session not found: "@ + session_id),
        unnamed is Answer,
        unnamed->Answer_0.entries@.len() == roots.len(),
        unnamed->Answer_0.roots@.len() == roots.len(),
        forall|i: int|
            0 <= i < roots.len() ==> (#[trigger] unnamed->Answer_0.entries@[i]).is_dir
                && unnamed->Answer_0.entries@[i].path@ == shown_text(spelled(roots[i])),
        forall|i: int|
            0 <= i < roots.len() ==> (#[trigger] unnamed->Answer_0.roots@[i])@ == shown_text(
                spelled(roots[i]),
            ),
{
    text::trimmed_ignores_white_around(front, path, back);
    text::trimmed_is_stable(path);
    let a = unnamed->Answer_0;
    let rows = roots.map_values(|p: Seq<Seq<u8>>| root_entry(p));
    assert(entry_views(a.entries@).len() == a.entries@.len());
    assert(text::views(a.roots@).len() == a.roots@.len());
    assert forall|i: int| 0 <= i < roots.len() implies (#[trigger] a.entries@[i]).is_dir
        && a.entries@[i].path@ == shown_text(spelled(roots[i])) by {
        assert(entry_views(a.entries@)[i] == rows[i]);
        assert(a.entries@[i]@ == root_entry(roots[i]));
    }
    assert forall|i: int| 0 <= i < roots.len() implies (#[trigger] a.roots@[i])@ == shown_text(
        spelled(roots[i]),
    ) by {
        assert(text::views(a.roots@)[i] == root_texts(roots)[i]);
    }
}

/// A path that a root of the list begins is gone on with, whichever root that
/// is; one that none begins is refused, and so is one that does not resolve.
pub proof fn paths_below_any_root_are_gone_on_with(
    requested: Seq<char>,
    path: CanonicalPath,
    roots: Seq<Seq<Seq<u8>>>,
    i: int,
    below: Seq<Seq<u8>>,
    plan: ListPlan,
)
    requires
        0 <= i < roots.len(),
        path@ == roots[i] + below,
        goes_on(requested, Ok(path), roots, plan),
    ensures
        plan == ListPlan::Inspect(path),
{
    every_root_counts(roots, i, below);
}

/// What is not below a root, or does not resolve, is never looked at.
pub proof fn nothing_else_is_looked_at(
    requested: Seq<char>,
    resolved: Result<CanonicalPath, String>,
    roots: Seq<Seq<Seq<u8>>>,
    plan: ListPlan,
)
    requires
        goes_on(requested, resolved, roots, plan),
        resolved matches Ok(path) ==> forall|i: int, below: Seq<Seq<u8>>|
            0 <= i < roots.len() ==> path@ != #[trigger] (#[trigger] roots[i] + below),
    ensures
        plan is Refuse,
{
    if let Ok(path) = resolved {
        paths_below_no_root_are_outside(path@, roots);
    }
}

/// A listing is that of the directory, with a row for each of its entries and
/// for nothing else, and tells every root.
pub proof fn listings_answer_for_the_directory(
    answer: ListDirectoryResponse,
    dir: Seq<Seq<u8>>,
    roots: Seq<Seq<Seq<u8>>>,
    items: Seq<DirItem>,
)
    requires
        lists(answer, dir, roots, items),
    ensures
        answer.path@ == shown_text(spelled(dir)),
        answer.entries@.len() == items.len(),
        forall|k: int|
            0 <= k < items.len() ==> entry_views(answer.entries@).contains(
                item_entry(dir, #[trigger] items[k]),
            ),
        answer.roots@.len() == roots.len(),
        forall|i: int|
            0 <= i < roots.len() ==> (#[trigger] answer.roots@[i])@ == shown_text(spelled(roots[i])),
        answer.parent is Some <==> dir.len() > 0 && within(dir.drop_last(), roots),
        answer.parent matches Some(p) ==> p@ == shown_text(spelled(dir.drop_last())),
{
    let rows = item_entries(dir, items);
    listings_show_every_entry(rows, entry_views(answer.entries@));
    assert(entry_views(answer.entries@).len() == answer.entries@.len());
    assert(text::views(answer.roots@).len() == answer.roots@.len());
    assert forall|k: int| 0 <= k < items.len() implies entry_views(answer.entries@).contains(
        item_entry(dir, #[trigger] items[k]),
    ) by {
        assert(rows[k] == item_entry(dir, items[k]));
        assert(rows.contains(rows[k]));
    }
    assert forall|i: int| 0 <= i < roots.len() implies (#[trigger] answer.roots@[i])@ == shown_text(
        spelled(roots[i]),
    ) by {
        assert(text::views(answer.roots@)[i] == root_texts(roots)[i]);
    }
}

/// The name that is shown for a path is its last step, and the root is shown as
/// a slash.
pub proof fn paths_are_shown_by_their_last_step(dir: Seq<Seq<u8>>, name: Seq<u8>)
    ensures
        shown_name(dir.push(name)) == shown_text(name),
        shown_name(Seq::empty()) == shown_text(seq![0x2fu8]),
{
}

/// A name is a step of a path unless it is empty, holds a slash, or is one of
/// the two that lead nowhere and upwards. So no path that was read leads
/// upwards.
pub proof fn paths_never_lead_upwards(name: Seq<u8>, bytes: Seq<u8>)
    ensures
        is_step(name) <==> {
            &&& name.len() > 0
            &&& forall|i: int| 0 <= i < name.len() ==> #[trigger] name[i] != 0x2f
            &&& !(name.len() == 1 && name[0] == 0x2e)
            &&& !(name.len() == 2 && name[0] == 0x2e && name[1] == 0x2e)
        },
        steps_of(bytes) matches Some(steps) ==> !steps.contains(seq![0x2eu8, 0x2eu8])
            && !steps.contains(seq![0x2eu8]) && !steps.contains(Seq::<u8>::empty()),
{
    if name.len() == 1 && name[0] == 0x2e {
        assert(name =~= seq![46u8]);
    }
    if name.len() == 2 && name[0] == 0x2e && name[1] == 0x2e {
        assert(name =~= seq![46u8, 46u8]);
    }
    if name.contains(47u8) {
        let k = choose|k: int| 0 <= k < name.len() && name[k] == 47u8;
        assert(name[k] == 0x2f);
    }
    if let Some(steps) = steps_of(bytes) {
        read_paths_spell_back(bytes);
        let dots = seq![0x2eu8, 0x2eu8];
        let dot = seq![0x2eu8];
        let none = Seq::<u8>::empty();
        if steps.contains(dots) {
            let k = choose|k: int| 0 <= k < steps.len() && steps[k] == dots;
            assert(is_step(steps[k]));
        }
        if steps.contains(dot) {
            let k = choose|k: int| 0 <= k < steps.len() && steps[k] == dot;
            assert(is_step(steps[k]));
        }
        if steps.contains(none) {
            let k = choose|k: int| 0 <= k < steps.len() && steps[k] == none;
            assert(is_step(steps[k]));
        }
    }
}

/// A refusal says what was refused: a path that did not resolve is named with
/// the reason, and a path outside the roots is named as it resolved, with the
/// roots.
pub proof fn refusals_name_the_path(
    requested: Seq<char>,
    reason: String,
    path: CanonicalPath,
    roots: Seq<Seq<Seq<u8>>>,
    unresolved: ListPlan,
    outside: ListPlan,
)
    requires
        goes_on(requested, Err(reason), roots, unresolved),
        goes_on(requested, Ok(path), roots, outside),
        !within(path@, roots),
    ensures
        unresolved is Refuse && unresolved->Refuse_0@ is NotFound,
        ({
            let m = unresolved->Refuse_0@->NotFound_0;
            text::occurs_at(m, requested, 15) && m.skip(17int + requested.len()) == reason@
        }),
        outside is Refuse && outside->Refuse_0@ is InvalidParams,
        ({
            let m = outside->Refuse_0@->InvalidParams_0;
            let told = listing(root_texts(roots));
            text::occurs_at(m, told, 37) && m.skip(40int + told.len()) == shown_text(
                spelled(path@),
            )
        }),
{
    reveal_strlit("Cannot resolve ");
    reveal_strlit(": ");
    reveal_strlit("Path is outside the browsable roots (");
    reveal_strlit("): ");
    let m = unresolved->Refuse_0@->NotFound_0;
    assert(m.subrange(15, 15int + requested.len()) =~= requested);
    assert(m.skip(17int + requested.len()) =~= reason@);
    let n = outside->Refuse_0@->InvalidParams_0;
    let told = listing(root_texts(roots));
    assert(n.subrange(37, 37int + told.len()) =~= told);
    assert(n.skip(40int + told.len()) =~= shown_text(spelled(path@)));
}

} // verus!
