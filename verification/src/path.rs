//! Unix file paths as byte strings.
//!
//! A path is a sequence of bytes in which `/` separates components. Repeated separators and `.`
//! segments do not count as components, except that a leading `/` and a leading `.` do. Two paths
//! with the same components are the same path.

use crate::order::{compare_bytes, compare_lists, slice_views, Relation};
use crate::text::{utf8_chars, utf8_text};
use vstd::prelude::*;
use vstd::slice::{slice_subrange, slice_to_vec};
use vstd::utf8::*;

verus! {

/// The byte that separates components.
pub const SEPARATOR: u8 = 0x2f;

/// The byte of the segments `.` and `..`.
pub const DOT: u8 = 0x2e;

/// Number of bytes before the first separator of `s`.
pub open spec fn segment_len(s: Seq<u8>) -> nat
    decreases s.len(),
{
    if s.len() == 0 || s[0] == SEPARATOR {
        0
    } else {
        1 + segment_len(s.skip(1))
    }
}

/// The bytes before the first separator of `s`.
pub open spec fn first_segment(s: Seq<u8>) -> Seq<u8> {
    s.take(segment_len(s) as int)
}

/// The bytes after the first separator of `s`.
pub open spec fn after_segment(s: Seq<u8>) -> Seq<u8> {
    if segment_len(s) < s.len() {
        s.skip(segment_len(s) as int + 1)
    } else {
        Seq::empty()
    }
}

/// The segment `.`.
pub open spec fn current_dir() -> Seq<u8> {
    seq![DOT]
}

/// The segment `..`.
pub open spec fn parent_dir() -> Seq<u8> {
    seq![DOT, DOT]
}

/// The component that stands for the leading `/` of an absolute path.
pub open spec fn root_dir() -> Seq<u8> {
    seq![SEPARATOR]
}

/// A segment that is no component: an empty one or `.`.
pub open spec fn is_noise(segment: Seq<u8>) -> bool {
    segment.len() == 0 || segment == current_dir()
}

/// What one segment contributes to the components.
pub open spec fn segment_components(segment: Seq<u8>) -> Seq<Seq<u8>> {
    if is_noise(segment) {
        Seq::empty()
    } else {
        seq![segment]
    }
}

/// The segments of `s` that are components.
pub open spec fn body_components(s: Seq<u8>) -> Seq<Seq<u8>>
    decreases s.len(),
{
    if s.len() == 0 {
        Seq::empty()
    } else {
        segment_components(first_segment(s)) + body_components(after_segment(s))
    }
}

/// The path starts at the root directory.
pub open spec fn is_absolute(s: Seq<u8>) -> bool {
    s.len() > 0 && s[0] == SEPARATOR
}

/// The component that a leading `/` or a leading `.` stands for, if there is one.
pub open spec fn head_components(s: Seq<u8>) -> Seq<Seq<u8>> {
    if is_absolute(s) {
        seq![root_dir()]
    } else if first_segment(s) == current_dir() {
        seq![current_dir()]
    } else {
        Seq::empty()
    }
}

/// The components of the path `s`.
pub open spec fn components(s: Seq<u8>) -> Seq<Seq<u8>> {
    head_components(s) + body_components(s)
}

/// The components of `base` are the first components of `path`.
pub open spec fn path_starts_with(path: Seq<u8>, base: Seq<u8>) -> bool {
    components(base).is_prefix_of(components(path))
}

/// A byte string that can be the name of a file or directory.
pub open spec fn is_name(segment: Seq<u8>) -> bool {
    &&& !is_noise(segment)
    &&& segment != parent_dir()
    &&& !segment.contains(SEPARATOR)
}

/// The first segment stops at the first separator.
pub(crate) proof fn lemma_segment_len(s: Seq<u8>)
    ensures
        segment_len(s) <= s.len(),
        segment_len(s) < s.len() ==> s[segment_len(s) as int] == SEPARATOR,
        forall|i: int| 0 <= i < segment_len(s) ==> s[i] != SEPARATOR,
        !first_segment(s).contains(SEPARATOR),
    decreases s.len(),
{
    if s.len() > 0 && s[0] != SEPARATOR {
        lemma_segment_len(s.skip(1));
        assert forall|i: int| 0 <= i < segment_len(s) implies s[i] != SEPARATOR by {
            if i > 0 {
                assert(s.skip(1)[i - 1] == s[i]);
            }
        }
    }
}

/// A position that ends the first segment is where `segment_len` says.
pub(crate) proof fn lemma_segment_len_at(s: Seq<u8>, n: int)
    requires
        0 <= n <= s.len(),
        forall|i: int| 0 <= i < n ==> s[i] != SEPARATOR,
        n < s.len() ==> s[n] == SEPARATOR,
    ensures
        segment_len(s) == n,
    decreases n,
{
    if n > 0 {
        assert forall|i: int| 0 <= i < n - 1 implies s.skip(1)[i] != SEPARATOR by {
            assert(s.skip(1)[i] == s[i + 1]);
        }
        lemma_segment_len_at(s.skip(1), n - 1);
    }
}

/// The end of the segment of `bytes` that starts at `start`.
fn segment_end(bytes: &[u8], start: usize) -> (end: usize)
    requires
        start <= bytes.len(),
    ensures
        start <= end <= bytes.len(),
        end - start == segment_len(bytes@.skip(start as int)),
        end < bytes.len() ==> bytes@[end as int] == SEPARATOR,
{
    let mut i: usize = start;
    while i < bytes.len() && bytes[i] != SEPARATOR
        invariant
            start <= i <= bytes.len(),
            forall|k: int| start <= k < i ==> bytes@[k] != SEPARATOR,
        decreases bytes.len() - i,
    {
        i = i + 1;
    }
    proof {
        let s = bytes@.skip(start as int);
        lemma_segment_len_at(s, i - start);
    }
    i
}

/// Whether two byte slices hold the same bytes.
pub fn same_bytes(a: &[u8], b: &[u8]) -> (r: bool)
    ensures
        r == (a@ == b@),
{
    match compare_bytes(a, b) {
        Relation::Same => true,
        _ => false,
    }
}

fn is_noise_slice(segment: &[u8]) -> (r: bool)
    ensures
        r == is_noise(segment@),
{
    if segment.len() == 0 {
        true
    } else if segment.len() == 1 {
        let r = segment[0] == DOT;
        assert(r == (segment@ =~= current_dir()));
        r
    } else {
        assert(segment@.len() != current_dir().len());
        false
    }
}

/// The components of the path `bytes`.
pub fn split_components<'a>(bytes: &'a [u8]) -> (r: Vec<&'a [u8]>)
    ensures
        slice_views(r@) == components(bytes@),
{
    let mut out: Vec<&'a [u8]> = Vec::new();
    let first_end = segment_end(bytes, 0);
    assert(bytes@.skip(0) =~= bytes@);
    if bytes.len() > 0 && bytes[0] == SEPARATOR {
        let root = slice_subrange(bytes, 0, 1);
        assert(root@ =~= root_dir());
        out.push(root);
    } else if first_end == 1 && bytes[0] == DOT {
        let dot = slice_subrange(bytes, 0, 1);
        assert(dot@ =~= current_dir());
        assert(first_segment(bytes@) =~= current_dir());
        out.push(dot);
    } else {
        assert(first_segment(bytes@).len() == first_end);
        assert(first_end == 1 ==> first_segment(bytes@)[0] == bytes@[0]);
    }
    assert(slice_views(out@) =~= head_components(bytes@));
    let mut pos: usize = 0;
    while pos < bytes.len()
        invariant
            pos <= bytes.len(),
            slice_views(out@) + body_components(bytes@.skip(pos as int)) == components(bytes@),
        decreases bytes.len() - pos,
    {
        let ghost s = bytes@.skip(pos as int);
        let end = segment_end(bytes, pos);
        let segment = slice_subrange(bytes, pos, end);
        assert(segment@ =~= first_segment(s));
        let ghost before = out@;
        if !is_noise_slice(segment) {
            out.push(segment);
            assert(slice_views(out@) =~= slice_views(before) + segment_components(segment@));
        } else {
            assert(slice_views(out@) =~= slice_views(before) + segment_components(segment@));
        }
        if end < bytes.len() {
            pos = end + 1;
        } else {
            pos = end;
        }
        proof {
            assert(bytes@.skip(pos as int) =~= after_segment(s));
            assert(slice_views(out@) + body_components(after_segment(s)) =~= slice_views(before)
                + body_components(s));
        }
    }
    proof {
        assert(bytes@.skip(pos as int) =~= Seq::empty());
        assert(slice_views(out@) + body_components(bytes@.skip(pos as int)) =~= slice_views(out@));
    }
    out
}

/// Number of bytes after the last separator of `s`.
pub open spec fn last_segment_len(s: Seq<u8>) -> nat
    decreases s.len(),
{
    if s.len() == 0 || s.last() == SEPARATOR {
        0
    } else {
        1 + last_segment_len(s.drop_last())
    }
}

/// The bytes after the last separator of `s`.
pub open spec fn last_segment(s: Seq<u8>) -> Seq<u8> {
    s.skip(s.len() - last_segment_len(s))
}

/// The bytes before the last separator of `s`.
pub open spec fn before_last_segment(s: Seq<u8>) -> Seq<u8> {
    if last_segment_len(s) < s.len() {
        s.take(s.len() - last_segment_len(s) - 1)
    } else {
        Seq::empty()
    }
}

/// `s` without the leading segments that are no components.
pub open spec fn trim_start(s: Seq<u8>) -> Seq<u8>
    decreases s.len(),
{
    if s.len() > 0 && is_noise(first_segment(s)) {
        trim_start(after_segment(s))
    } else {
        s
    }
}

/// `s` without the trailing segments that are no components.
pub open spec fn trim_end(s: Seq<u8>) -> Seq<u8>
    decreases s.len(),
{
    if s.len() > 0 && is_noise(last_segment(s)) {
        trim_end(before_last_segment(s))
    } else {
        s
    }
}

/// What follows the first `n` segments of `s` that are components.
pub open spec fn bytes_after(s: Seq<u8>, n: nat) -> Seq<u8>
    decreases s.len(),
{
    if n == 0 || s.len() == 0 {
        s
    } else if is_noise(first_segment(s)) {
        bytes_after(after_segment(s), n)
    } else {
        bytes_after(after_segment(s), (n - 1) as nat)
    }
}

/// The path `s` without its first `n` components, spelled as in `s`, without separators or `.`
/// segments at its end, nor, unless it is all of `s`, at its start.
pub open spec fn path_after(s: Seq<u8>, n: nat) -> Seq<u8> {
    let head = head_components(s).len();
    if n == 0 {
        s.take(head as int) + trim_end(s.skip(head as int))
    } else {
        trim_end(trim_start(bytes_after(s.skip(head as int), (n - head) as nat)))
    }
}

/// The path `path` relative to `base`, if it starts with it.
pub open spec fn path_strip_prefix(path: Seq<u8>, base: Seq<u8>) -> Option<Seq<u8>> {
    if path_starts_with(path, base) {
        Some(path_after(path, components(base).len()))
    } else {
        None
    }
}

/// The path `base` extended by `path`, or `path` itself if that is absolute.
pub open spec fn path_join(base: Seq<u8>, path: Seq<u8>) -> Seq<u8> {
    if is_absolute(path) {
        path
    } else if base.len() == 0 || base.last() == SEPARATOR {
        base + path
    } else {
        base.push(SEPARATOR) + path
    }
}

/// The last component, if it is the name of a file or directory.
pub open spec fn path_file_name(path: Seq<u8>) -> Option<Seq<u8>> {
    if components(path).len() > 0 && is_name(components(path).last()) {
        Some(components(path).last())
    } else {
        None
    }
}

/// Position of the last dot of `s`, or -1 if it has none.
pub open spec fn last_dot(s: Seq<u8>) -> int
    decreases s.len(),
{
    if s.len() == 0 {
        -1
    } else if s.last() == DOT {
        s.len() - 1
    } else {
        last_dot(s.drop_last())
    }
}

/// The part of a file name after its last dot, unless that dot is the first byte or missing.
pub open spec fn name_extension(name: Seq<u8>) -> Option<Seq<u8>> {
    if last_dot(name) > 0 {
        Some(name.skip(last_dot(name) + 1))
    } else {
        None
    }
}

/// The extension of the file name of `path`.
pub open spec fn path_extension(path: Seq<u8>) -> Option<Seq<u8>> {
    match path_file_name(path) {
        Some(name) => name_extension(name),
        None => None,
    }
}

proof fn lemma_last_segment_len_at(s: Seq<u8>, n: int)
    requires
        0 <= n <= s.len(),
        forall|i: int| s.len() - n <= i < s.len() ==> s[i] != SEPARATOR,
        n < s.len() ==> s[s.len() - n - 1] == SEPARATOR,
    ensures
        last_segment_len(s) == n,
    decreases n,
{
    if n > 0 {
        lemma_last_segment_len_at(s.drop_last(), n - 1);
    }
}

/// The start of the segment that ends at `end` and does not reach below `start`.
fn segment_start(bytes: &[u8], start: usize, end: usize) -> (r: usize)
    requires
        start <= end <= bytes.len(),
    ensures
        start <= r <= end,
        end - r == last_segment_len(bytes@.subrange(start as int, end as int)),
        r > start ==> bytes@[r - 1] == SEPARATOR,
{
    let mut i: usize = end;
    while i > start && bytes[i - 1] != SEPARATOR
        invariant
            start <= i <= end <= bytes.len(),
            forall|k: int| i <= k < end ==> bytes@[k] != SEPARATOR,
        decreases i,
    {
        i = i - 1;
    }
    proof {
        lemma_last_segment_len_at(bytes@.subrange(start as int, end as int), end - i);
    }
    i
}

/// Where `trim_start` of the rest of `bytes` from `start` begins.
fn skip_noise(bytes: &[u8], start: usize) -> (r: usize)
    requires
        start <= bytes.len(),
    ensures
        start <= r <= bytes.len(),
        bytes@.skip(r as int) == trim_start(bytes@.skip(start as int)),
{
    let mut pos: usize = start;
    while pos < bytes.len()
        invariant
            start <= pos <= bytes.len(),
            trim_start(bytes@.skip(start as int)) == trim_start(bytes@.skip(pos as int)),
        decreases bytes.len() - pos,
    {
        let ghost s = bytes@.skip(pos as int);
        let end = segment_end(bytes, pos);
        let segment = slice_subrange(bytes, pos, end);
        assert(segment@ =~= first_segment(s));
        if !is_noise_slice(segment) {
            return pos;
        }
        if end < bytes.len() {
            pos = end + 1;
        } else {
            pos = end;
        }
        assert(bytes@.skip(pos as int) =~= after_segment(s));
    }
    pos
}

/// Where `trim_end` of `bytes` between `start` and `end` stops.
fn drop_noise(bytes: &[u8], start: usize, end: usize) -> (r: usize)
    requires
        start <= end <= bytes.len(),
    ensures
        start <= r <= end,
        bytes@.subrange(start as int, r as int) == trim_end(
            bytes@.subrange(start as int, end as int),
        ),
{
    let mut stop: usize = end;
    while stop > start
        invariant
            start <= stop <= end <= bytes.len(),
            trim_end(bytes@.subrange(start as int, end as int)) == trim_end(
                bytes@.subrange(start as int, stop as int),
            ),
        decreases stop,
    {
        let ghost s = bytes@.subrange(start as int, stop as int);
        let from = segment_start(bytes, start, stop);
        let segment = slice_subrange(bytes, from, stop);
        assert(segment@ =~= last_segment(s));
        if !is_noise_slice(segment) {
            return stop;
        }
        if from > start {
            stop = from - 1;
        } else {
            stop = start;
        }
        assert(bytes@.subrange(start as int, stop as int) =~= before_last_segment(s));
    }
    stop
}

/// Where `bytes_after` of the rest of `bytes` from `start` begins.
fn skip_components(bytes: &[u8], start: usize, count: usize) -> (r: usize)
    requires
        start <= bytes.len(),
    ensures
        start <= r <= bytes.len(),
        bytes@.skip(r as int) == bytes_after(bytes@.skip(start as int), count as nat),
{
    let mut pos: usize = start;
    let mut left: usize = count;
    while left > 0 && pos < bytes.len()
        invariant
            start <= pos <= bytes.len(),
            bytes_after(bytes@.skip(start as int), count as nat) == bytes_after(
                bytes@.skip(pos as int),
                left as nat,
            ),
        decreases bytes.len() - pos,
    {
        let ghost s = bytes@.skip(pos as int);
        let end = segment_end(bytes, pos);
        let segment = slice_subrange(bytes, pos, end);
        assert(segment@ =~= first_segment(s));
        if !is_noise_slice(segment) {
            left = left - 1;
        }
        if end < bytes.len() {
            pos = end + 1;
        } else {
            pos = end;
        }
        assert(bytes@.skip(pos as int) =~= after_segment(s));
    }
    pos
}

/// Whether the list `a` is the start of the list `b`.
fn is_list_prefix(a: &Vec<&[u8]>, b: &Vec<&[u8]>) -> (r: bool)
    ensures
        r == slice_views(a@).is_prefix_of(slice_views(b@)),
{
    let ghost x = slice_views(a@);
    let ghost y = slice_views(b@);
    if a.len() > b.len() {
        return false;
    }
    let mut i: usize = 0;
    while i < a.len()
        invariant
            x == slice_views(a@),
            y == slice_views(b@),
            i <= a.len() <= b.len(),
            forall|k: int| 0 <= k < i ==> x[k] == y[k],
        decreases a.len() - i,
    {
        if !same_bytes(a[i], b[i]) {
            assert(x[i as int] != y[i as int]);
            assert(y.subrange(0, x.len() as int)[i as int] == y[i as int]);
            return false;
        }
        assert(x[i as int] == y[i as int]);
        i = i + 1;
    }
    assert(x =~= y.subrange(0, x.len() as int));
    true
}

fn is_name_slice(segment: &[u8]) -> (r: bool)
    ensures
        r == is_name(segment@),
{
    if is_noise_slice(segment) {
        return false;
    }
    if segment.len() == 2 && segment[0] == DOT && segment[1] == DOT {
        assert(segment@ =~= parent_dir());
        return false;
    }
    assert(segment@ != parent_dir()) by {
        if segment@ == parent_dir() {
            assert(segment@[0] == DOT && segment@[1] == DOT);
        }
    }
    let end = segment_end(segment, 0);
    proof {
        assert(segment@.skip(0) =~= segment@);
        lemma_segment_len(segment@);
        if end < segment.len() {
            assert(segment@.contains(segment@[end as int]));
        } else {
            assert(first_segment(segment@) =~= segment@);
        }
    }
    end == segment.len()
}

/// A file path.
#[derive(Debug)]
pub struct PathBuf {
    bytes: Vec<u8>,
}

impl View for PathBuf {
    type V = Seq<u8>;

    closed spec fn view(&self) -> Seq<u8> {
        self.bytes@
    }
}

/// The bytes of each path of a sequence.
pub open spec fn path_views(paths: Seq<PathBuf>) -> Seq<Seq<u8>> {
    paths.map_values(|p: PathBuf| p@)
}

/// The paths spelled by texts.
pub open spec fn spelled_paths(texts: Seq<Seq<char>>) -> Seq<Seq<u8>> {
    texts.map_values(|t: Seq<char>| encode_utf8(t))
}

impl Clone for PathBuf {
    fn clone(&self) -> (r: PathBuf)
        ensures
            r@ == self@,
    {
        PathBuf { bytes: slice_to_vec(self.bytes.as_slice()) }
    }
}

impl PartialEq for PathBuf {
    /// Two paths are equal when they have the same components.
    fn eq(&self, other: &PathBuf) -> (r: bool) {
        let own = split_components(self.bytes.as_slice());
        let theirs = split_components(other.bytes.as_slice());
        match compare_lists(&own, &theirs) {
            Relation::Same => true,
            _ => false,
        }
    }
}

impl vstd::std_specs::cmp::PartialEqSpecImpl for PathBuf {
    open spec fn obeys_eq_spec() -> bool {
        true
    }

    open spec fn eq_spec(&self, other: &PathBuf) -> bool {
        components(self@) == components(other@)
    }
}

impl Eq for PathBuf {

}

impl PathBuf {
    /// The path spelled by a string.
    pub fn from(text: &str) -> (r: PathBuf)
        ensures
            r@ == encode_utf8(text@),
    {
        PathBuf { bytes: slice_to_vec(text.as_bytes()) }
    }

    /// The path made of the given bytes.
    pub fn from_bytes(bytes: Vec<u8>) -> (r: PathBuf)
        ensures
            r@ == bytes@,
    {
        PathBuf { bytes }
    }

    /// The bytes of the path.
    pub fn as_bytes(&self) -> (r: &[u8])
        ensures
            r@ == self@,
    {
        self.bytes.as_slice()
    }

    /// The path as a string, if it is valid UTF-8.
    pub fn to_str(&self) -> (r: Option<&str>)
        ensures
            r is Some <==> utf8_chars(self@) is Some,
            r matches Some(s) ==> utf8_chars(self@) == Some(s@) && encode_utf8(s@) == self@,
    {
        utf8_text(self.bytes.as_slice())
    }

    /// The path has no bytes.
    pub fn is_empty(&self) -> (r: bool)
        ensures
            r == (self@.len() == 0),
    {
        self.bytes.len() == 0
    }

    /// The path starts at the root directory.
    pub fn is_absolute(&self) -> (r: bool)
        ensures
            r == is_absolute(self@),
    {
        self.bytes.len() > 0 && self.bytes[0] == SEPARATOR
    }

    /// Whether the components of `base` are the first components of this path.
    pub fn starts_with(&self, base: &PathBuf) -> (r: bool)
        ensures
            r == path_starts_with(self@, base@),
    {
        let own = split_components(self.bytes.as_slice());
        let other = split_components(base.bytes.as_slice());
        is_list_prefix(&other, &own)
    }

    /// The path relative to `base`, or `None` if it does not start with it.
    pub fn strip_prefix(&self, base: &PathBuf) -> (r: Option<PathBuf>)
        ensures
            r is Some <==> path_starts_with(self@, base@),
            r matches Some(p) ==> path_strip_prefix(self@, base@) == Some(p@),
    {
        let bytes = self.bytes.as_slice();
        let own = split_components(bytes);
        let other = split_components(base.bytes.as_slice());
        if !is_list_prefix(&other, &own) {
            return None;
        }
        let first_end = segment_end(bytes, 0);
        assert(bytes@.skip(0) =~= bytes@);
        let rooted = bytes.len() > 0 && bytes[0] == SEPARATOR;
        let dotted = first_end == 1 && bytes[0] == DOT;
        let head: usize = if rooted || dotted { 1 } else { 0 };
        proof {
            assert(first_segment(bytes@).len() == first_end);
            assert(first_end == 1 ==> first_segment(bytes@)[0] == bytes@[0]);
            assert(dotted ==> first_segment(bytes@) =~= current_dir());
            assert(head == head_components(bytes@).len());
        }
        let start: usize;
        let stop: usize;
        if other.len() == 0 {
            start = 0;
            stop = drop_noise(bytes, head, bytes.len());
            assert(bytes@.skip(head as int) =~= bytes@.subrange(head as int, bytes.len() as int));
            assert(bytes@.subrange(0, stop as int) =~= bytes@.take(head as int) + bytes@.subrange(
                head as int,
                stop as int,
            ));
        } else {
            let after = skip_components(bytes, head, other.len() - head);
            start = skip_noise(bytes, after);
            stop = drop_noise(bytes, start, bytes.len());
            assert(bytes@.skip(start as int) =~= bytes@.subrange(start as int, bytes.len() as int));
        }
        Some(PathBuf { bytes: slice_to_vec(slice_subrange(bytes, start, stop)) })
    }

    /// This path extended by `path`, or `path` itself if that is absolute.
    pub fn join(&self, path: &PathBuf) -> (r: PathBuf)
        ensures
            r@ == path_join(self@, path@),
    {
        if path.is_absolute() {
            return path.clone();
        }
        let mut bytes: Vec<u8> = slice_to_vec(self.bytes.as_slice());
        if bytes.len() > 0 && bytes[bytes.len() - 1] != SEPARATOR {
            bytes.push(SEPARATOR);
        }
        let mut tail: Vec<u8> = slice_to_vec(path.bytes.as_slice());
        bytes.append(&mut tail);
        PathBuf { bytes }
    }

    /// The extension of the file name, if there is one.
    pub fn extension(&self) -> (r: Option<&[u8]>)
        ensures
            r is Some <==> path_extension(self@) is Some,
            r matches Some(e) ==> path_extension(self@) == Some(e@),
    {
        let parts = split_components(self.bytes.as_slice());
        if parts.len() == 0 {
            return None;
        }
        let name = parts[parts.len() - 1];
        assert(name@ == components(self@).last());
        if !is_name_slice(name) {
            return None;
        }
        let mut i: usize = name.len();
        assert(name@.take(i as int) =~= name@);
        while i > 0 && name[i - 1] != DOT
            invariant
                i <= name.len(),
                last_dot(name@) == last_dot(name@.take(i as int)),
            decreases i,
        {
            assert(name@.take(i as int).drop_last() =~= name@.take(i - 1));
            i = i - 1;
        }
        if i <= 1 {
            return None;
        }
        assert(name@.skip(i as int) =~= name@.subrange(i as int, name.len() as int));
        Some(slice_subrange(name, i, name.len()))
    }
}

} // verus!
