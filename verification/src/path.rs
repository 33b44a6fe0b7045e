//! Paths as lists of components, which is how paths are compared, nested
//! and extended; how a path is split into components is the platform's
//! business and happens before a path gets here.

use vstd::prelude::*;

verus! {

/// One component of a path.
#[derive(Debug, PartialEq, Eq)]
pub enum PathPart {
    /// A volume or share prefix, such as `C:`.
    Prefix(String),
    /// The root directory.
    Root,
    /// `.`, the directory itself.
    Current,
    /// `..`, the directory above.
    Parent,
    /// An ordinary name.
    Normal(String),
}

pub enum PartView {
    Prefix(Seq<char>),
    Root,
    Current,
    Parent,
    Normal(Seq<char>),
}

impl View for PathPart {
    type V = PartView;

    open spec fn view(&self) -> PartView {
        match self {
            PathPart::Prefix(text) => PartView::Prefix(text@),
            PathPart::Root => PartView::Root,
            PathPart::Current => PartView::Current,
            PathPart::Parent => PartView::Parent,
            PathPart::Normal(name) => PartView::Normal(name@),
        }
    }
}

impl PathPart {
    /// Whether two components are the same.
    pub fn same(&self, other: &PathPart) -> (same: bool)
        ensures
            same == (self@ == other@),
    {
        match (self, other) {
            (PathPart::Prefix(a), PathPart::Prefix(b)) => *a == *b,
            (PathPart::Root, PathPart::Root) => true,
            (PathPart::Current, PathPart::Current) => true,
            (PathPart::Parent, PathPart::Parent) => true,
            (PathPart::Normal(a), PathPart::Normal(b)) => *a == *b,
            _ => false,
        }
    }

    /// A copy of the component.
    pub fn duplicate(&self) -> (copy: PathPart)
        ensures
            copy@ == self@,
    {
        match self {
            PathPart::Prefix(text) => PathPart::Prefix(text.clone()),
            PathPart::Root => PathPart::Root,
            PathPart::Current => PathPart::Current,
            PathPart::Parent => PathPart::Parent,
            PathPart::Normal(name) => PathPart::Normal(name.clone()),
        }
    }

    /// Number of bytes the component takes when written out.
    pub fn byte_len(&self) -> (len: usize)
        ensures
            len == part_len(self@),
    {
        match self {
            PathPart::Prefix(text) => text.as_str().as_bytes().len(),
            PathPart::Root => 1,
            PathPart::Current => 1,
            PathPart::Parent => 2,
            PathPart::Normal(name) => name.as_str().as_bytes().len(),
        }
    }
}

/// Number of bytes that `part` takes when written out.
pub open spec fn part_len(part: PartView) -> nat {
    match part {
        PartView::Prefix(text) => vstd::utf8::encode_utf8(text).len(),
        PartView::Root => 1,
        PartView::Current => 1,
        PartView::Parent => 2,
        PartView::Normal(name) => vstd::utf8::encode_utf8(name).len(),
    }
}

/// Whether a separator is written between `part` and the component after it.
pub open spec fn separator_after(part: PartView) -> bool {
    !(part is Root || part is Prefix)
}

/// Number of bytes that a path of these components takes when written
/// out: the components, and a separator after each but the last, except
/// after a root or a prefix.
pub open spec fn written_len(parts: Seq<PartView>) -> nat
    decreases parts.len(),
{
    if parts.len() == 0 {
        0
    } else if parts.len() == 1 {
        part_len(parts[0])
    } else {
        written_len(parts.drop_last()) + (if separator_after(parts[parts.len() - 2]) {
            1nat
        } else {
            0nat
        }) + part_len(parts.last())
    }
}

/// The last component's name, if the last component is an ordinary name.
pub open spec fn final_name(parts: Seq<PartView>) -> Option<Seq<char>> {
    if parts.len() > 0 && parts.last() is Normal {
        Some(parts.last()->Normal_0)
    } else {
        None
    }
}

/// Whether the path `parts` is `base` or lies below it: whether `base` is
/// a prefix of `parts`, component by component.
pub open spec fn lies_under(parts: Seq<PartView>, base: Seq<PartView>) -> bool {
    base.len() <= parts.len() && parts.take(base.len() as int) == base
}

/// A path.
#[derive(Debug, PartialEq, Eq)]
pub struct FsPath {
    pub parts: Vec<PathPart>,
}

impl View for FsPath {
    type V = Seq<PartView>;

    open spec fn view(&self) -> Seq<PartView> {
        Seq::new(self.parts@.len(), |i: int| self.parts@[i]@)
    }
}

impl FsPath {
    /// A copy of the path.
    pub fn duplicate(&self) -> (copy: FsPath)
        ensures
            copy@ == self@,
    {
        let mut parts: Vec<PathPart> = Vec::new();
        let mut i: usize = 0;
        while i < self.parts.len()
            invariant
                i <= self.parts.len(),
                parts@.len() == i,
                forall|j: int| 0 <= j < i ==> parts@[j]@ == self.parts@[j]@,
            decreases self.parts.len() - i,
        {
            parts.push(self.parts[i].duplicate());
            i = i + 1;
        }
        let copy = FsPath { parts };
        proof {
            assert(copy@ =~= self@);
        }
        copy
    }

    /// The path of the entry `name` in this directory.
    pub fn join(&self, name: String) -> (joined: FsPath)
        ensures
            joined@ == self@.push(PartView::Normal(name@)),
    {
        let mut joined = self.duplicate();
        joined.parts.push(PathPart::Normal(name));
        proof {
            assert(joined@ =~= self@.push(PartView::Normal(name@)));
        }
        joined
    }

    /// The name of the entry that the path leads to, where it ends in one.
    pub fn file_name(&self) -> (name: Option<String>)
        ensures
            match name {
                Some(name) => final_name(self@) == Some(name@),
                None => final_name(self@) is None,
            },
    {
        if self.parts.len() == 0 {
            return None;
        }
        match &self.parts[self.parts.len() - 1] {
            PathPart::Normal(name) => Some(name.clone()),
            _ => None,
        }
    }

    /// Whether this path is `base` or lies below it.
    pub fn starts_with(&self, base: &FsPath) -> (under: bool)
        ensures
            under == lies_under(self@, base@),
    {
        if base.parts.len() > self.parts.len() {
            return false;
        }
        let mut i: usize = 0;
        while i < base.parts.len()
            invariant
                i <= base.parts.len(),
                base.parts.len() <= self.parts.len(),
                forall|j: int| 0 <= j < i ==> self@[j] == base@[j],
            decreases base.parts.len() - i,
        {
            if !self.parts[i].same(&base.parts[i]) {
                proof {
                    assert(self@.take(base@.len() as int)[i as int] == self@[i as int]);
                }
                return false;
            }
            i = i + 1;
        }
        proof {
            assert(self@.take(base@.len() as int) =~= base@);
        }
        true
    }

    /// Whether the path takes more than `limit` bytes when written out.
    pub fn is_longer_than(&self, limit: usize) -> (longer: bool)
        ensures
            longer == (written_len(self@) > limit),
    {
        let mut len: usize = 0;
        let mut i: usize = 0;
        proof {
            assert(self@.take(0) =~= Seq::<PartView>::empty());
        }
        while i < self.parts.len()
            invariant
                i <= self.parts.len(),
                len == written_len(self@.take(i as int)),
                len <= limit,
            decreases self.parts.len() - i,
        {
            let part = self.parts[i].byte_len();
            let gap: usize = if i == 0 {
                0
            } else {
                match self.parts[i - 1] {
                    PathPart::Root => 0,
                    PathPart::Prefix(_) => 0,
                    _ => 1,
                }
            };
            proof {
                let now = self@.take(i as int + 1);
                assert(now.drop_last() =~= self@.take(i as int));
                assert(now.last() == self@[i as int]);
                if i > 0 {
                    assert(now[now.len() - 2] == self@[i as int - 1]);
                }
                assert(written_len(now) == len + gap + part);
                lemma_written_len_grows(self@, i as int + 1);
            }
            if gap > limit - len || part > limit - len - gap {
                return true;
            }
            len = len + gap + part;
            i = i + 1;
        }
        proof {
            assert(self@.take(i as int) =~= self@);
        }
        false
    }
}

/// A path is at least as long as each of its beginnings.
pub proof fn lemma_written_len_grows(parts: Seq<PartView>, count: int)
    requires
        0 <= count <= parts.len(),
    ensures
        written_len(parts.take(count)) <= written_len(parts),
    decreases parts.len() - count,
{
    if count == parts.len() {
        assert(parts.take(count) =~= parts);
    } else {
        lemma_written_len_grows(parts, count + 1);
        let longer = parts.take(count + 1);
        assert(longer.drop_last() =~= parts.take(count));
        if count == 0 {
            assert(parts.take(0).len() == 0);
        }
    }
}

/// Every path lies under itself.
pub proof fn lemma_lies_under_itself(parts: Seq<PartView>)
    ensures
        lies_under(parts, parts),
{
    assert(parts.take(parts.len() as int) =~= parts);
}

/// Whatever lies under a path also lies under what that path lies under.
pub proof fn lemma_lies_under_transitive(a: Seq<PartView>, b: Seq<PartView>, c: Seq<PartView>)
    requires
        lies_under(a, b),
        lies_under(b, c),
    ensures
        lies_under(a, c),
{
    assert(a.take(c.len() as int) =~= b.take(c.len() as int)) by {
        assert forall|i: int| 0 <= i < c.len() implies a.take(c.len() as int)[i] == b.take(
            c.len() as int,
        )[i] by {
            assert(a.take(b.len() as int)[i] == b[i]);
        }
    }
}

} // verus!
