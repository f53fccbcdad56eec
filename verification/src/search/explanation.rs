//! Why a doc got its score.

use vstd::prelude::*;
use vstd::string::*;

use crate::search::scorer::ScoreValue;

verus! {

/// The text of `depth` levels of indentation, two spaces each.
pub open spec fn indent_text(depth: nat) -> Seq<char>
    decreases depth,
{
    if depth == 0 {
        Seq::empty()
    } else {
        indent_text((depth - 1) as nat) + seq![' ', ' ']
    }
}

/// The account of how the score of one doc came about: whether the doc
/// matched, its score, what the score stands for, and the accounts of the
/// parts that the score was made of.
#[derive(Debug)]
pub struct Explanation<V: ScoreValue> {
    is_match: bool,
    value: V,
    description: String,
    details: Vec<Explanation<V>>,
}

impl<V: ScoreValue> Explanation<V> {
    /// Whether the doc matched.
    pub closed spec fn matched(&self) -> bool {
        self.is_match
    }

    /// The score of the doc.
    pub closed spec fn score(&self) -> V {
        self.value
    }

    /// What the score stands for.
    pub closed spec fn text(&self) -> Seq<char> {
        self.description@
    }

    /// The accounts of the parts.
    pub closed spec fn parts(&self) -> Seq<Explanation<V>> {
        self.details@
    }

    /// The score, an equals sign, and what the score stands for.
    pub open spec fn summary_text(&self) -> Seq<char> {
        self.score().text_spec().chars + seq![' ', '=', ' '] + self.text()
    }

    /// How deep the parts are nested: one for an account without parts.
    pub open spec fn height(&self) -> nat
        decreases self,
    {
        1 + Self::greatest_height(self.parts())
    }

    /// The greatest height among `parts`, and zero where there is none.
    pub open spec fn greatest_height(parts: Seq<Explanation<V>>) -> nat
        decreases parts,
    {
        if parts.len() == 0 {
            0
        } else {
            let rest = Self::greatest_height(parts.drop_last());
            if parts.last().height() > rest {
                parts.last().height()
            } else {
                rest
            }
        }
    }

    /// The account as an indented tree: its summary on a line of its own,
    /// `depth` levels in, followed by its parts one level further in.
    pub open spec fn tree_text(&self, depth: nat) -> Seq<char>
        decreases self,
    {
        indent_text(depth) + self.summary_text() + seq!['\n'] + Self::trees_text(
            self.parts(),
            depth + 1,
        )
    }

    /// The trees of `parts`, one after the other.
    pub open spec fn trees_text(parts: Seq<Explanation<V>>, depth: nat) -> Seq<char>
        decreases parts,
    {
        if parts.len() == 0 {
            Seq::empty()
        } else {
            Self::trees_text(parts.drop_last(), depth) + parts.last().tree_text(depth)
        }
    }

    /// An account with the given parts. The score of a doc that did not
    /// match is the score that adds nothing, whatever `value` is.
    pub fn new(is_match: bool, value: V, description: String, details: Vec<Explanation<V>>) -> (e:
        Explanation<V>)
        ensures
            e.matched() == is_match,
            e.score() == if is_match {
                value
            } else {
                V::zero_spec()
            },
            e.text() == description@,
            e.parts() == details@,
    {
        let value = if !is_match {
            V::zero()
        } else {
            value
        };
        Explanation { is_match, value, description, details }
    }

    /// Whether the doc matched.
    pub fn is_match(&self) -> (b: bool)
        ensures
            b == self.matched(),
    {
        self.is_match
    }

    /// The score of the doc.
    pub fn value(&self) -> (v: V)
        ensures
            v == self.score(),
    {
        self.value
    }

    /// What the score stands for.
    pub fn description(&self) -> (text: String)
        ensures
            text@ == self.text(),
    {
        self.description.clone()
    }

    /// The score, an equals sign, and what the score stands for.
    pub fn summary(&self) -> (text: String)
        ensures
            text@ == self.summary_text(),
    {
        proof {
            reveal_strlit(" = ");
        }
        let mut text = self.value.to_text();
        text.append(" = ");
        text.append(self.description.as_str());
        proof {
            assert(" = "@ =~= seq![' ', '=', ' ']);
            assert(text@ =~= self.summary_text());
        }
        text
    }

    /// The accounts of the parts.
    pub fn details(&self) -> (parts: &[Explanation<V>])
        ensures
            parts@ == self.parts(),
    {
        self.details.as_slice()
    }

    /// The account as an indented tree, `depth` levels in.
    pub fn to_string(&self, depth: i32) -> (text: String)
        requires
            0 <= depth,
            depth + self.height() <= i32::MAX,
        ensures
            text@ == self.tree_text(depth as nat),
        decreases self,
    {
        proof {
            reveal_strlit("");
            reveal_strlit("  ");
            reveal_strlit("\n");
        }
        let mut buffer = String::from_str("");
        let mut level: i32 = 0;
        while level < depth
            invariant
                0 <= level <= depth,
                buffer@ == indent_text(level as nat),
                "  "@ == seq![' ', ' '],
            decreases depth - level,
        {
            buffer.append("  ");
            level += 1;
        }
        buffer.append(self.summary().as_str());
        buffer.append("\n");
        let ghost head = buffer@;
        let n = self.details.len();
        let mut i: usize = 0;
        while i < n
            invariant
                n == self.details@.len(),
                i <= n,
                0 <= depth,
                depth + self.height() <= i32::MAX,
                buffer@ == head + Self::trees_text(
                    self.details@.take(i as int),
                    (depth + 1) as nat,
                ),
            decreases n - i,
        {
            proof {
                assert(self.details@.take(i + 1).drop_last() =~= self.details@.take(i as int));
                assert(self.details@.take(i + 1).last() == self.details@[i as int]);
                Self::lemma_height_of_part(self.details@, i as int);
            }
            let part = self.details[i].to_string(depth + 1);
            buffer.append(part.as_str());
            i += 1;
        }
        proof {
            assert(self.details@.take(n as int) =~= self.details@);
            assert("\n"@ =~= seq!['\n']);
        }
        buffer
    }

    /// A copy of the account, parts and all.
    pub fn duplicate(&self) -> (copy: Explanation<V>)
        ensures
            copy.same_as(*self),
        decreases self,
    {
        let mut details: Vec<Explanation<V>> = Vec::new();
        let n = self.details.len();
        let mut i: usize = 0;
        while i < n
            invariant
                n == self.details@.len(),
                i <= n,
                details@.len() == i,
                forall|k: int| 0 <= k < i ==> (#[trigger] details@[k]).same_as(self.details@[k]),
            decreases n - i,
        {
            details.push(self.details[i].duplicate());
            i += 1;
        }
        Explanation {
            is_match: self.is_match,
            value: self.value,
            description: self.description.clone(),
            details,
        }
    }

    /// The two accounts say the same of their doc and of every part.
    pub open spec fn same_as(&self, other: Explanation<V>) -> bool
        decreases self,
    {
        &&& self.matched() == other.matched()
        &&& self.score() == other.score()
        &&& self.text() == other.text()
        &&& self.parts().len() == other.parts().len()
        &&& forall|k: int|
            0 <= k < self.parts().len() ==> (#[trigger] self.parts()[k]).same_as(other.parts()[k])
    }

    /// No part is higher than the greatest height.
    proof fn lemma_height_of_part(parts: Seq<Explanation<V>>, i: int)
        requires
            0 <= i < parts.len(),
        ensures
            parts[i].height() <= Self::greatest_height(parts),
        decreases parts.len(),
    {
        if i < parts.len() - 1 {
            Self::lemma_height_of_part(parts.drop_last(), i);
        }
    }
}

impl<V: ScoreValue> Clone for Explanation<V> {
    fn clone(&self) -> (copy: Explanation<V>)
        ensures
            copy.same_as(*self),
    {
        self.duplicate()
    }
}

} // verus!
