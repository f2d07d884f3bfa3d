//! Paths as text.
//!
//! A directory is named by a string, taken as it is written. A file inside a
//! source tree is named by a [`RelPath`]: the names that lead to it from the
//! root of the tree, each of them one directory entry.

use crate::text::{joined, lemma_join_then_split, views};
use vstd::prelude::*;
use vstd::std_specs::cmp::PartialEqSpecImpl;

verus! {

/// The character that separates the names of a path.
pub const SEPARATOR: char = '/';

/// A text that can name one directory entry: not empty, without a
/// separator, and neither `.` nor `..`.
pub open spec fn is_name(part: Seq<char>) -> bool {
    &&& part.len() > 0
    &&& !part.contains(SEPARATOR)
    &&& part != seq!['.']
    &&& part != seq!['.', '.']
}

/// Names that lead to a file: at least one, each of them a name.
pub open spec fn is_relative(parts: Seq<Seq<char>>) -> bool {
    &&& parts.len() > 0
    &&& forall|i: int| 0 <= i < parts.len() ==> is_name(#[trigger] parts[i])
}

/// The text of the path that `parts` spell.
pub open spec fn rel_text(parts: Seq<Seq<char>>) -> Seq<char> {
    joined(parts, SEPARATOR)
}

/// The text of `rel` taken from inside the directory `dir`. A separator is
/// put between the two unless `dir` is empty or ends with one.
pub open spec fn join_text(dir: Seq<char>, rel: Seq<char>) -> Seq<char> {
    if dir.len() == 0 || dir.last() == SEPARATOR {
        dir + rel
    } else {
        dir.push(SEPARATOR) + rel
    }
}

/// Whether `part` can name one directory entry.
pub fn check_name(part: &str) -> (ok: bool)
    ensures
        ok == is_name(part@),
{
    broadcast use vstd::string::group_string_axioms;

    let mut count: usize = 0;
    let mut dots_only = true;
    let mut separated = false;
    let n = part.unicode_len();
    for c in it: part.chars()
        invariant
            it.seq() == part@,
            n == part@.len(),
            count == it.index(),
            count <= n,
            dots_only <==> forall|j: int| 0 <= j < count ==> part@[j] == '.',
            separated <==> exists|j: int| 0 <= j < count && part@[j] == SEPARATOR,
    {
        if c != '.' {
            dots_only = false;
        }
        if c == SEPARATOR {
            separated = true;
        }
        count += 1;
    }
    proof {
        if dots_only && count == 1 {
            assert(part@ =~= seq!['.']);
        }
        if dots_only && count == 2 {
            assert(part@ =~= seq!['.', '.']);
        }
        if part@ == seq!['.'] || part@ == seq!['.', '.'] {
            assert(dots_only);
        }
    }
    count > 0 && !separated && !(dots_only && count <= 2)
}

/// The text of `rel` taken from inside the directory `dir`.
pub fn join(dir: &str, rel: &str) -> (text: String)
    ensures
        text@ == join_text(dir@, rel@),
{
    let n = dir.unicode_len();
    let mut text = dir.to_owned();
    if n > 0 && dir.get_char(n - 1) != SEPARATOR {
        proof {
            reveal_strlit("/");
        }
        text.append("/");
        assert(text@ =~= dir@.push(SEPARATOR));
    }
    text.append(rel);
    text
}

/// The place of a file inside a source tree: the names that lead to it from
/// the root of the tree.
#[derive(Debug)]
pub struct RelPath {
    parts: Vec<String>,
}

impl View for RelPath {
    type V = Seq<Seq<char>>;

    closed spec fn view(&self) -> Seq<Seq<char>> {
        views(self.parts@)
    }
}

impl RelPath {
    #[verifier::type_invariant]
    spec fn well_formed(&self) -> bool {
        is_relative(views(self.parts@))
    }

    /// The path that `parts` spell, where they spell one.
    pub fn new(parts: Vec<String>) -> (path: Option<RelPath>)
        ensures
            path is Some <==> is_relative(views(parts@)),
            path matches Some(p) ==> p@ == views(parts@),
    {
        if parts.len() == 0 {
            return None;
        }
        let mut i: usize = 0;
        while i < parts.len()
            invariant
                i <= parts.len(),
                forall|j: int| 0 <= j < i ==> is_name(#[trigger] views(parts@)[j]),
            decreases parts.len() - i,
        {
            if !check_name(parts[i].as_str()) {
                assert(!is_name(views(parts@)[i as int]));
                return None;
            }
            i += 1;
        }
        Some(RelPath { parts })
    }

    /// The names of the path, in order. There is at least one, and each can
    /// name a directory entry.
    pub fn parts(&self) -> (parts: &Vec<String>)
        ensures
            views(parts@) == self@,
            is_relative(self@),
    {
        proof {
            use_type_invariant(self);
        }
        &self.parts
    }

    /// The path as text: its names with a separator between neighbours.
    pub fn text(&self) -> (text: String)
        ensures
            text@ == rel_text(self@),
    {
        proof {
            use_type_invariant(self);
            reveal_strlit("/");
        }
        let mut text = self.parts[0].clone();
        let mut i: usize = 1;
        assert(self@.take(1) =~= seq![self@[0]]);
        while i < self.parts.len()
            invariant
                1 <= i <= self.parts.len(),
                "/"@ == seq![SEPARATOR],
                text@ == rel_text(self@.take(i as int)),
            decreases self.parts.len() - i,
        {
            assert(self@.take(i + 1).drop_last() =~= self@.take(i as int));
            text.append("/");
            text.append(self.parts[i].as_str());
            assert(text@ =~= rel_text(self@.take(i as int)).push(SEPARATOR) + self@[i as int]);
            i += 1;
        }
        assert(self@.take(i as int) =~= self@);
        text
    }

    /// The directory that holds the file, as a path from the same root; none
    /// where the file lies in the root itself.
    pub fn parent(&self) -> (parent: Option<RelPath>)
        ensures
            parent is Some <==> self@.len() > 1,
            parent matches Some(p) ==> p@ == self@.drop_last(),
    {
        proof {
            use_type_invariant(self);
        }
        let n = self.parts.len();
        if n == 1 {
            return None;
        }
        let mut parts: Vec<String> = Vec::new();
        let mut i: usize = 0;
        while i < n - 1
            invariant
                n == self.parts.len(),
                n > 1,
                i <= n - 1,
                views(parts@) == self@.take(i as int),
            decreases n - i,
        {
            parts.push(self.parts[i].clone());
            assert(views(parts@) =~= self@.take(i as int).push(self@[i as int]));
            assert(self@.take(i + 1) =~= self@.take(i as int).push(self@[i as int]));
            i += 1;
        }
        assert(self@.take(n - 1) =~= self@.drop_last());
        Some(RelPath { parts })
    }
}

impl Clone for RelPath {
    fn clone(&self) -> (copy: Self)
        ensures
            copy@ == self@,
            is_relative(copy@),
    {
        proof {
            use_type_invariant(self);
        }
        let mut parts: Vec<String> = Vec::new();
        let mut i: usize = 0;
        while i < self.parts.len()
            invariant
                i <= self.parts.len(),
                views(parts@) == self@.take(i as int),
            decreases self.parts.len() - i,
        {
            parts.push(self.parts[i].clone());
            assert(views(parts@) =~= self@.take(i as int).push(self@[i as int]));
            assert(self@.take(i + 1) =~= self@.take(i as int).push(self@[i as int]));
            i += 1;
        }
        assert(self@.take(i as int) =~= self@);
        RelPath { parts }
    }
}

impl PartialEq for RelPath {
    fn eq(&self, other: &RelPath) -> (same: bool) {
        if self.parts.len() != other.parts.len() {
            assert(self@.len() != other@.len());
            return false;
        }
        let mut i: usize = 0;
        while i < self.parts.len()
            invariant
                i <= self.parts.len(),
                self.parts.len() == other.parts.len(),
                forall|j: int| 0 <= j < i ==> self@[j] == other@[j],
            decreases self.parts.len() - i,
        {
            if self.parts[i] != other.parts[i] {
                assert(self@[i as int] != other@[i as int]);
                return false;
            }
            i += 1;
        }
        assert(self@ =~= other@);
        true
    }
}

impl PartialEqSpecImpl for RelPath {
    open spec fn obeys_eq_spec() -> bool {
        true
    }

    open spec fn eq_spec(&self, other: &RelPath) -> bool {
        self@ == other@
    }
}

impl Eq for RelPath {

}

/// A relative path is known by its text: two that are written alike have
/// the same names.
pub proof fn lemma_rel_text_injective(a: Seq<Seq<char>>, b: Seq<Seq<char>>)
    requires
        is_relative(a),
        is_relative(b),
        rel_text(a) == rel_text(b),
    ensures
        a == b,
{
    assert forall|i: int| 0 <= i < a.len() implies !(#[trigger] a[i]).contains(SEPARATOR) by {
        assert(is_name(a[i]));
    }
    assert forall|i: int| 0 <= i < b.len() implies !(#[trigger] b[i]).contains(SEPARATOR) by {
        assert(is_name(b[i]));
    }
    lemma_join_then_split(a, SEPARATOR);
    lemma_join_then_split(b, SEPARATOR);
}

/// Inside one directory, different texts are different paths.
pub proof fn lemma_join_text_injective(dir: Seq<char>, a: Seq<char>, b: Seq<char>)
    requires
        join_text(dir, a) == join_text(dir, b),
    ensures
        a == b,
{
    let lead = if dir.len() == 0 || dir.last() == SEPARATOR {
        dir
    } else {
        dir.push(SEPARATOR)
    };
    assert(join_text(dir, a) == lead + a);
    assert(join_text(dir, b) == lead + b);
    assert(a =~= (lead + a).skip(lead.len() as int));
    assert(b =~= (lead + b).skip(lead.len() as int));
}

} // verus!
