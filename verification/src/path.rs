use vstd::prelude::*;
use vstd::std_specs::cmp::PartialEqSpecImpl;
use vstd::string::StringSliceAdditionalSpecFns;
use vstd::utf8::{decode_utf8, valid_utf8, valid_utf8_concat, decode_utf8_encode_utf8, encode_utf8};
use crate::bytes::{bytes_eq, clone_bytes, clone_names, names_view};

verus! {

/// The byte that separates the names of a path.
pub const SEPARATOR: u8 = 47;

/// The name of a file or directory: any bytes.
pub type Filename = Vec<u8>;

/// A path: the names that lead from the root to a file or directory. The root is the
/// path without names.
pub struct Path {
    path: Vec<Filename>,
}

/// Reading `bytes` from the left: the names completed so far, and the name being read.
pub open spec fn scan_names(bytes: Seq<u8>) -> (Seq<Seq<u8>>, Seq<u8>)
    decreases bytes.len(),
{
    if bytes.len() == 0 {
        (Seq::empty(), Seq::empty())
    } else {
        let (done, token) = scan_names(bytes.drop_last());
        if bytes.last() == SEPARATOR {
            if token.len() > 0 {
                (done.push(token), Seq::empty())
            } else {
                (done, Seq::empty())
            }
        } else {
            (done, token.push(bytes.last()))
        }
    }
}

/// The names of a written path: the maximal runs of bytes other than the separator.
pub open spec fn split_names(bytes: Seq<u8>) -> Seq<Seq<u8>> {
    let (done, token) = scan_names(bytes);
    if token.len() > 0 {
        done.push(token)
    } else {
        done
    }
}

/// A separator before each name, the names in order.
pub open spec fn join_names(names: Seq<Seq<u8>>) -> Seq<u8>
    decreases names.len(),
{
    if names.len() == 0 {
        Seq::empty()
    } else {
        join_names(names.drop_last()) + seq![SEPARATOR] + names.last()
    }
}

/// The written form of a path: a separator alone for the root, else a separator before
/// each name.
pub open spec fn render_names(names: Seq<Seq<u8>>) -> Seq<u8> {
    if names.len() == 0 {
        seq![SEPARATOR]
    } else {
        join_names(names)
    }
}

/// A name that can be written and read back: not empty, and without a separator.
pub open spec fn plain_name(name: Seq<u8>) -> bool {
    name.len() > 0 && forall|i: int| 0 <= i < name.len() ==> name[i] != SEPARATOR
}

/// Reading a plain name after anything that ended a name leaves that name pending.
proof fn lemma_scan_append_name(head: Seq<u8>, name: Seq<u8>)
    requires
        scan_names(head).1.len() == 0,
        forall|i: int| 0 <= i < name.len() ==> name[i] != SEPARATOR,
    ensures
        scan_names(head + name) == (scan_names(head).0, name),
    decreases name.len(),
{
    if name.len() == 0 {
        assert(head + name =~= head);
        assert(scan_names(head).1 =~= name);
    } else {
        let all = head + name;
        assert(all.drop_last() =~= head + name.drop_last());
        lemma_scan_append_name(head, name.drop_last());
        assert(name.drop_last().push(name.last()) =~= name);
    }
}

/// Reading the joined form of plain names gives back those names, none pending but the last.
proof fn lemma_scan_join(names: Seq<Seq<u8>>)
    requires
        names.len() > 0,
        forall|i: int| 0 <= i < names.len() ==> plain_name(#[trigger] names[i]),
    ensures
        scan_names(join_names(names)) == (names.drop_last(), names.last()),
    decreases names.len(),
{
    let front = names.drop_last();
    let head = join_names(front) + seq![SEPARATOR];
    assert(head.drop_last() =~= join_names(front));
    if front.len() == 0 {
        assert(join_names(front) =~= Seq::<u8>::empty());
        assert(head.drop_last().len() == 0);
        assert(head.last() == SEPARATOR);
        assert(scan_names(head.drop_last()) == (Seq::<Seq<u8>>::empty(), Seq::<u8>::empty()));
        assert(scan_names(head) == (Seq::<Seq<u8>>::empty(), Seq::<u8>::empty()));
        assert(front =~= Seq::<Seq<u8>>::empty());
    } else {
        assert forall|i: int| 0 <= i < front.len() implies plain_name(#[trigger] front[i]) by {
            assert(front[i] == names[i]);
        }
        lemma_scan_join(front);
        assert(front.drop_last().push(front.last()) =~= front);
        assert(plain_name(names[names.len() - 2]));
        assert(front.last() == names[names.len() - 2]);
    }
    assert(scan_names(head) == (front, Seq::<u8>::empty()));
    assert(plain_name(names[names.len() - 1]));
    lemma_scan_append_name(head, names.last());
}

/// Writing a path and reading it back gives the same names, provided that each name is
/// plain: an empty name or a separator inside a name cannot be written.
pub proof fn law_written_path_is_read(names: Seq<Seq<u8>>)
    requires
        forall|i: int| 0 <= i < names.len() ==> plain_name(#[trigger] names[i]),
    ensures
        split_names(render_names(names)) == names,
{
    if names.len() == 0 {
        let one = seq![SEPARATOR];
        assert(one.drop_last() =~= Seq::<u8>::empty());
        assert(scan_names(one.drop_last()) == (Seq::<Seq<u8>>::empty(), Seq::<u8>::empty()));
        assert(split_names(one) =~= names);
    } else {
        lemma_scan_join(names);
        assert(plain_name(names[names.len() - 1]));
        assert(names.drop_last().push(names.last()) =~= names);
    }
}

/// Adding a name and then taking the parent gives back the path.
pub proof fn law_concat_then_parent(names: Seq<Seq<u8>>, child: Seq<u8>)
    ensures
        names.push(child).len() > 0,
        names.push(child).drop_last() == names,
        names.push(child).last() == child,
{
    assert(names.push(child).drop_last() =~= names);
}

/// The joined form of names that are each valid UTF-8 is valid UTF-8.
proof fn lemma_join_valid_utf8(names: Seq<Seq<u8>>)
    requires
        forall|i: int| 0 <= i < names.len() ==> valid_utf8(#[trigger] names[i]),
    ensures
        valid_utf8(join_names(names)),
        valid_utf8(render_names(names)),
    decreases names.len(),
{
    let sep = seq![SEPARATOR];
    assert(valid_utf8(sep)) by {
        lemma_separator_valid();
    }
    if names.len() == 0 {
        assert(valid_utf8(join_names(names)));
    } else {
        let front = names.drop_last();
        assert forall|i: int| 0 <= i < front.len() implies valid_utf8(#[trigger] front[i]) by {
            assert(front[i] == names[i]);
        }
        lemma_join_valid_utf8(front);
        valid_utf8_concat(join_names(front), sep);
        assert(valid_utf8(names[names.len() - 1]));
        valid_utf8_concat(join_names(front) + sep, names.last());
    }
}

/// The separator alone is valid UTF-8.
proof fn lemma_separator_valid()
    ensures
        valid_utf8(seq![SEPARATOR]),
{
    let sep = seq![SEPARATOR];
    assert(47u8 & 0x80 == 0) by (bit_vector);
    assert(sep[0] == 47u8);
    assert(vstd::utf8::is_leading_byte_width_1(sep[0]));
    assert(vstd::utf8::length_of_first_scalar(sep) == 1);
    assert(vstd::utf8::pop_first_scalar(sep) =~= Seq::<u8>::empty());
    assert(valid_utf8(Seq::<u8>::empty()));
    assert(vstd::utf8::valid_first_scalar(sep));
}

impl View for Path {
    type V = Seq<Seq<u8>>;

    /// The names of the path, from the root down.
    closed spec fn view(&self) -> Seq<Seq<u8>> {
        names_view(self.path@)
    }
}

impl PartialEq for Path {
    fn eq(&self, other: &Self) -> (same: bool) {
        if self.path.len() != other.path.len() {
            assert(self@.len() != other@.len());
            return false;
        }
        let mut i: usize = 0;
        while i < self.path.len()
            invariant
                i <= self.path.len(),
                self.path.len() == other.path.len(),
                forall|k: int| 0 <= k < i ==> self@[k] == other@[k],
            decreases self.path.len() - i,
        {
            if !bytes_eq(&self.path[i], &other.path[i]) {
                assert(self@[i as int] != other@[i as int]);
                return false;
            }
            i += 1;
        }
        assert(self@ =~= other@);
        true
    }
}

impl PartialEqSpecImpl for Path {
    open spec fn obeys_eq_spec() -> bool {
        true
    }

    open spec fn eq_spec(&self, other: &Self) -> bool {
        self@ == other@
    }
}

impl Eq for Path {
}

impl Clone for Path {
    fn clone(&self) -> (copy: Self)
        ensures
            copy@ == self@,
    {
        Path { path: clone_names(&self.path) }
    }
}

impl Path {
    /// The root of the file system.
    pub fn root() -> (p: Self)
        ensures
            p@ == Seq::<Seq<u8>>::empty(),
    {
        let p = Path { path: Vec::new() };
        assert(p@ =~= Seq::<Seq<u8>>::empty());
        p
    }

    /// Whether the path is the root.
    pub fn is_root(&self) -> (root: bool)
        ensures
            root == (self@.len() == 0),
    {
        self.path.len() == 0
    }

    /// The directory that holds what the path names; the root has none.
    pub fn parent_dir(&self) -> (parent: Option<Self>)
        ensures
            self@.len() == 0 ==> parent is None,
            self@.len() > 0 ==> (parent matches Some(p) && p@ == self@.drop_last()),
    {
        if self.is_root() {
            None
        } else {
            let mut names = clone_names(&self.path);
            let ghost before = names@;
            names.pop();
            let p = Path { path: names };
            assert(p@ =~= self@.drop_last()) by {
                assert forall|i: int| 0 <= i < p@.len() implies p@[i] == self@.drop_last()[i] by {
                    assert(names_view(before)[i] == names_view(self.path@)[i]);
                }
            }
            Some(p)
        }
    }

    /// The last name of the path; the root has none.
    pub fn name(&self) -> (name: Option<Filename>)
        ensures
            self@.len() == 0 ==> name is None,
            self@.len() > 0 ==> (name matches Some(n) && n@ == self@.last()),
    {
        if self.is_root() {
            None
        } else {
            Some(clone_bytes(&self.path[self.path.len() - 1]))
        }
    }

    /// Reads a written path; see [`Path::from_str`].
    pub fn new(path: &str) -> (parsed: Option<Self>)
        ensures
            parsed matches Some(p) && p@ == split_names(path.spec_bytes()),
    {
        Self::from_str(path)
    }

    /// Reads a path from bytes: the names are the runs of bytes between separators, and
    /// empty runs are dropped.
    pub fn from_bytes(bytes: &[u8]) -> (p: Self)
        ensures
            p@ == split_names(bytes@),
    {
        let mut path: Vec<Vec<u8>> = Vec::new();
        let mut token: Vec<u8> = Vec::new();
        let mut i: usize = 0;
        assert(names_view(path@) =~= Seq::<Seq<u8>>::empty());
        assert(bytes@.take(0) =~= Seq::<u8>::empty());
        while i < bytes.len()
            invariant
                i <= bytes.len(),
                scan_names(bytes@.take(i as int)) == (names_view(path@), token@),
            decreases bytes.len() - i,
        {
            let ch = bytes[i];
            proof {
                assert(bytes@.take(i + 1).drop_last() =~= bytes@.take(i as int));
                assert(bytes@.take(i + 1).last() == ch);
            }
            let ghost before = path@;
            if ch == SEPARATOR {
                if token.len() > 0 {
                    let ghost tok = token@;
                    path.push(token);
                    token = Vec::new();
                    assert(names_view(path@) =~= names_view(before).push(tok));
                    assert(token@ =~= Seq::<u8>::empty());
                } else {
                    assert(token@ =~= Seq::<u8>::empty());
                }
            } else {
                token.push(ch);
            }
            i += 1;
        }
        assert(bytes@.take(bytes.len() as int) =~= bytes@);
        if token.len() > 0 {
            let ghost before = path@;
            let ghost tok = token@;
            path.push(token);
            assert(names_view(path@) =~= names_view(before).push(tok));
        }
        Path { path }
    }

    /// Reads a written path: it is split at each separator, and empty names are dropped, so
    /// that repeated separators count as one. Always succeeds.
    pub fn from_str(string: &str) -> (parsed: Option<Self>)
        ensures
            parsed matches Some(p) && p@ == split_names(string.spec_bytes()),
    {
        Some(Self::from_bytes(string.as_bytes()))
    }

    /// The written form of the path as bytes: a separator before each name, and a separator
    /// alone for the root.
    pub fn to_bytes(&self) -> (bytes: Vec<u8>)
        ensures
            bytes@ == render_names(self@),
    {
        let mut out: Vec<u8> = Vec::new();
        let mut i: usize = 0;
        assert(self@.take(0) =~= Seq::<Seq<u8>>::empty());
        while i < self.path.len()
            invariant
                i <= self.path.len(),
                self@.len() == self.path.len(),
                out@ == join_names(self@.take(i as int)),
            decreases self.path.len() - i,
        {
            out.push(SEPARATOR);
            let part = &self.path[i];
            let ghost base = out@;
            let mut k: usize = 0;
            while k < part.len()
                invariant
                    k <= part.len(),
                    out@ == base + part@.take(k as int),
                decreases part.len() - k,
            {
                out.push(part[k]);
                assert(part@.take(k as int).push(part@[k as int]) =~= part@.take(k + 1));
                assert(out@ =~= base + part@.take(k + 1));
                k += 1;
            }
            proof {
                assert(part@.take(part.len() as int) =~= part@);
                assert(self@.take(i + 1).drop_last() =~= self@.take(i as int));
                assert(self@.take(i + 1).last() == part@);
                assert(base =~= join_names(self@.take(i as int)) + seq![SEPARATOR]);
            }
            i += 1;
        }
        assert(self@.take(self.path.len() as int) =~= self@);
        if out.len() == 0 {
            out.push(SEPARATOR);
            assert(self@.len() == 0) by {
                if self@.len() > 0 {
                    assert(join_names(self@).len() > 0);
                }
            }
            assert(out@ =~= seq![SEPARATOR]);
        } else {
            assert(self@.len() > 0);
        }
        out
    }

    /// The written form of the path as text: a separator before each name, and a separator
    /// alone for the root. Every name has to be valid UTF-8.
    pub fn to_string(&self) -> (text: String)
        requires
            forall|i: int| 0 <= i < self@.len() ==> valid_utf8(#[trigger] self@[i]),
        ensures
            text@ == decode_utf8(render_names(self@)),
            encode_utf8(text@) == render_names(self@),
    {
        let bytes = self.to_bytes();
        proof {
            lemma_join_valid_utf8(self@);
            decode_utf8_encode_utf8(bytes@);
        }
        match utf8_to_string(bytes) {
            Some(text) => text,
            None => String::new(),
        }
    }

    /// The first name and the path that follows it; for the root, no name and the root.
    pub fn head_tail(self) -> (parts: (Option<Filename>, Self))
        ensures
            self@.len() == 0 ==> parts.0 is None && parts.1@ == self@,
            self@.len() > 0 ==> (parts.0 matches Some(h) && h@ == self@.first()),
            self@.len() > 0 ==> parts.1@ == self@.drop_first(),
    {
        if self.is_root() {
            (None, self)
        } else {
            let mut names = self.path;
            let ghost before = names@;
            let head = names.remove(0);
            let tail = Path { path: names };
            assert(tail@ =~= names_view(before).drop_first());
            (Some(head), tail)
        }
    }

    /// The path with one more name at its end.
    pub fn concat(&self, child: Filename) -> (longer: Self)
        ensures
            longer@ == self@.push(child@),
    {
        let mut names = clone_names(&self.path);
        let ghost before = names@;
        names.push(child);
        let longer = Path { path: names };
        assert(longer@ =~= self@.push(child@)) by {
            assert forall|i: int| 0 <= i < longer@.len() implies longer@[i] == self@.push(child@)[i] by {
                if i < before.len() {
                    assert(names_view(before)[i] == names_view(self.path@)[i]);
                }
            }
        }
        longer
    }

    /// What is left of the path below `ancestor`: the names after those of `ancestor`,
    /// where `ancestor` is a prefix of the path, and nothing otherwise.
    pub fn relative_to(self, ancestor: Self) -> (rest: Option<Self>)
        ensures
            ancestor@.is_prefix_of(self@) ==> (rest matches Some(p) && p@ == self@.skip(
                ancestor@.len() as int,
            )),
            !ancestor@.is_prefix_of(self@) ==> rest is None,
    {
        let n = ancestor.path.len();
        if n > self.path.len() {
            return None;
        }
        let mut i: usize = 0;
        while i < n
            invariant
                i <= n,
                n == ancestor.path.len(),
                n <= self.path.len(),
                forall|k: int| 0 <= k < i ==> ancestor@[k] == self@[k],
            decreases n - i,
        {
            if !bytes_eq(&ancestor.path[i], &self.path[i]) {
                assert(ancestor@[i as int] != self@[i as int]);
                assert(!ancestor@.is_prefix_of(self@)) by {
                    if ancestor@.is_prefix_of(self@) {
                        assert(self@.subrange(0, ancestor@.len() as int)[i as int] == self@[i as int]);
                    }
                }
                return None;
            }
            i += 1;
        }
        assert(ancestor@ =~= self@.subrange(0, ancestor@.len() as int));
        let mut names = self.path;
        let ghost before = names@;
        let rest_names = names.split_off(n);
        let rest = Path { path: rest_names };
        assert(rest@ =~= self@.skip(ancestor@.len() as int));
        Some(rest)
    }

    /// The name at `index`, counted from the root.
    pub fn get(&self, index: usize) -> (name: &Filename)
        requires
            index < self@.len(),
        ensures
            name@ == self@[index as int],
    {
        &self.path[index]
    }

    /// The number of names in the path.
    pub fn len(&self) -> (n: usize)
        ensures
            n == self@.len(),
    {
        self.path.len()
    }
}

/// Turns bytes into text with `String::from_utf8` of the standard library, which accepts
/// exactly the valid UTF-8 sequences and then yields the text that they encode.
#[verifier::external_body]
fn utf8_to_string(bytes: Vec<u8>) -> (text: Option<String>)
    ensures
        text is Some <==> valid_utf8(bytes@),
        text matches Some(s) ==> s@ == decode_utf8(bytes@),
{
    String::from_utf8(bytes).ok()
}

} // verus!
