//! A candidate string with its identity and lineage, and the mutation
//! operator that derives new candidates from it.

use vstd::prelude::*;
use vstd::string::*;

use crate::distance::{count_diff, distance, distance_of};
use crate::entropy::{fresh_id, push_char, random_below};

verus! {

/// One candidate of the population.
#[derive(Clone, Debug, PartialEq, Eq, Hash)]
pub struct Individual {
    pub id: String,
    pub content: String,
    pub parent: Option<String>,
}

/// What an `Individual` holds, as character sequences.
pub struct IndividualView {
    pub id: Seq<char>,
    pub content: Seq<char>,
    pub parent: Option<Seq<char>>,
}

/// The characters of an optional string.
pub open spec fn opt_view(o: Option<String>) -> Option<Seq<char>> {
    match o {
        Some(s) => Some(s@),
        None => None,
    }
}

impl View for Individual {
    type V = IndividualView;

    open spec fn view(&self) -> IndividualView {
        IndividualView { id: self.id@, content: self.content@, parent: opt_view(self.parent) }
    }
}

/// The characters a mutation may write.
pub open spec fn mutation_alphabet() -> Seq<char> {
    seq![
        'a', 'b', 'c', 'd', 'e', 'f', 'g', 'h', 'i', 'j', 'k', 'l',
        'm', 'n', 'o', 'p', 'q', 'r', 's', 't', 'u', 'v', 'w', 'x',
        'y', 'z', 'A', 'B', 'C', 'D', 'E', 'F', 'G', 'H', 'I', 'J',
        'K', 'L', 'M', 'N', 'O', 'P', 'Q', 'R', 'S', 'T', 'U', 'V',
        'W', 'X', 'Y', 'Z', '1', '2', '3', '4', '5', '6', '7', '8',
        '9', '0', '\'', '"', '!', '@', '#', '$', '%', '&', '*', '(',
        ')', '_', '+', '-', '=', '\u{b9}', '\u{b2}', '\u{b3}', '\u{a3}', '\u{a2}', '\u{ac}', '{',
        '[', ']', '}', '\u{a7}', '\u{aa}', '\u{ba}', ' ', '|', '<', '>', ':', ';',
        ',', '.',
    ]
}

fn alphabet() -> (r: Vec<char>)
    ensures
        r@ == mutation_alphabet(),
        r@.len() == 98,
{
    let r: Vec<char> = vec![
        'a', 'b', 'c', 'd', 'e', 'f', 'g', 'h', 'i', 'j', 'k', 'l',
        'm', 'n', 'o', 'p', 'q', 'r', 's', 't', 'u', 'v', 'w', 'x',
        'y', 'z', 'A', 'B', 'C', 'D', 'E', 'F', 'G', 'H', 'I', 'J',
        'K', 'L', 'M', 'N', 'O', 'P', 'Q', 'R', 'S', 'T', 'U', 'V',
        'W', 'X', 'Y', 'Z', '1', '2', '3', '4', '5', '6', '7', '8',
        '9', '0', '\'', '"', '!', '@', '#', '$', '%', '&', '*', '(',
        ')', '_', '+', '-', '=', '\u{b9}', '\u{b2}', '\u{b3}', '\u{a3}', '\u{a2}', '\u{ac}', '{',
        '[', ']', '}', '\u{a7}', '\u{aa}', '\u{ba}', ' ', '|', '<', '>', ':', ';',
        ',', '.',
    ];
    assert(r@ =~= mutation_alphabet());
    r
}

/// `s` with each edit `(position, character)` applied in order; a later edit
/// of a position overrides an earlier one, and edits out of range change
/// nothing.
pub open spec fn apply_edits(s: Seq<char>, edits: Seq<(usize, char)>) -> Seq<char>
    decreases edits.len(),
{
    if edits.len() == 0 {
        s
    } else {
        let prev = apply_edits(s, edits.drop_last());
        let (p, c) = edits.last();
        if (p as int) < prev.len() {
            prev.update(p as int, c)
        } else {
            prev
        }
    }
}

/// Edits that a mutation of a string of length `len` may draw: every position
/// inside the string, every character from the mutation alphabet.
pub open spec fn valid_edits(edits: Seq<(usize, char)>, len: nat) -> bool {
    forall|i: int|
        0 <= i < edits.len() ==> (#[trigger] edits[i]).0 < len && mutation_alphabet().contains(
            edits[i].1,
        )
}

/// `child` is a mutation of `parent` by `count` edits.
pub open spec fn is_mutation(parent: IndividualView, child: IndividualView, count: nat) -> bool {
    &&& child.parent == Some(parent.id)
    &&& child.id.len() == 5
    &&& exists|edits: Seq<(usize, char)>|
        edits.len() == count && valid_edits(edits, parent.content.len()) && child.content
            == apply_edits(parent.content, edits)
}

fn string_of(chars: &Vec<char>) -> (r: String)
    ensures
        r@ == chars@,
{
    let mut r = String::new();
    let mut i: usize = 0;
    while i < chars.len()
        invariant
            i <= chars@.len(),
            r@ == chars@.subrange(0, i as int),
        decreases chars.len() - i,
    {
        push_char(&mut r, chars[i]);
        i = i + 1;
        assert(r@ =~= chars@.subrange(0, i as int));
    }
    assert(chars@.subrange(0, chars@.len() as int) =~= chars@);
    r
}

fn chars_of(s: &String) -> (r: Vec<char>)
    ensures
        r@ == s@,
{
    let st = s.as_str();
    let n = st.unicode_len();
    let mut r: Vec<char> = Vec::new();
    let mut i: usize = 0;
    while i < n
        invariant
            st@ == s@,
            n == s@.len(),
            i <= n,
            r@ == s@.subrange(0, i as int),
        decreases n - i,
    {
        r.push(st.get_char(i));
        i = i + 1;
        assert(r@ =~= s@.subrange(0, i as int));
    }
    assert(s@.subrange(0, n as int) =~= s@);
    r
}

fn copy_opt(o: &Option<String>) -> (r: Option<String>)
    ensures
        opt_view(r) == opt_view(*o),
{
    match o {
        Some(s) => Some(s.clone()),
        None => None,
    }
}

impl Individual {
    /// A fresh candidate with the given content and lineage.
    pub fn new(c: String, parent: Option<String>) -> (r: Individual)
        ensures
            r@.content == c@,
            r@.parent == opt_view(parent),
            r@.id.len() == 5,
    {
        Individual { id: fresh_id(), content: c, parent }
    }

    /// A copy holding the same characters in every field.
    pub fn duplicate(&self) -> (r: Individual)
        ensures
            r@ == self@,
    {
        Individual {
            id: self.id.clone(),
            content: self.content.clone(),
            parent: copy_opt(&self.parent),
        }
    }

    /// The child that the given edits and identity make of this candidate.
    pub fn mutate_with(&self, edits: &Vec<(usize, char)>, id: String) -> (r: Individual)
        ensures
            r@.id == id@,
            r@.parent == Some(self@.id),
            r@.content == apply_edits(self@.content, edits@),
    {
        let mut chars = chars_of(&self.content);
        let n = chars.len();
        let mut i: usize = 0;
        while i < edits.len()
            invariant
                i <= edits@.len(),
                n == self@.content.len(),
                chars@ == apply_edits(self@.content, edits@.subrange(0, i as int)),
            decreases edits.len() - i,
        {
            let (p, c) = edits[i];
            proof {
                let e = edits@.subrange(0, i as int + 1);
                assert(e.drop_last() =~= edits@.subrange(0, i as int));
                lemma_apply_edits_len(self@.content, edits@.subrange(0, i as int));
            }
            if p < n {
                chars.set(p, c);
            }
            i = i + 1;
        }
        assert(edits@.subrange(0, edits@.len() as int) =~= edits@);
        Individual { id, content: string_of(&chars), parent: Some(self.id.clone()) }
    }

    /// A new candidate derived from this one by `count` random edits, each a
    /// random position and a random character of the mutation alphabet.
    pub fn mutate(&self, count: u8) -> (r: Individual)
        requires
            self@.content.len() > 0 || count == 0,
        ensures
            is_mutation(self@, r@, count as nat),
    {
        self.mutate_by(count as u16)
    }

    /// As `mutate`, for a count of edits that may exceed a byte.
    pub(crate) fn mutate_by(&self, count: u16) -> (r: Individual)
        requires
            self@.content.len() > 0 || count == 0,
        ensures
            is_mutation(self@, r@, count as nat),
    {
        let letters = alphabet();
        let n = self.content.as_str().unicode_len();
        let mut edits: Vec<(usize, char)> = Vec::new();
        let mut k: u16 = 0;
        while k < count
            invariant
                k <= count,
                n == self@.content.len(),
                n > 0 || count == 0,
                letters@ == mutation_alphabet(),
                edits@.len() == k,
                valid_edits(edits@, n as nat),
            decreases count - k,
        {
            let p = random_below(n);
            let c = letters[random_below(letters.len())];
            edits.push((p, c));
            k = k + 1;
            proof {
                assert(mutation_alphabet().contains(c));
                assert forall|i: int| 0 <= i < edits@.len() implies (#[trigger] edits@[i]).0 < n
                    && mutation_alphabet().contains(edits@[i].1) by {
                    if i < edits@.len() - 1 {
                        assert(edits@[i] == edits@.drop_last()[i]);
                    }
                }
            }
        }
        let r = self.mutate_with(&edits, fresh_id());
        assert(edits@.len() == count as nat && valid_edits(edits@, self@.content.len())
            && r@.content == apply_edits(self@.content, edits@));
        r
    }

    /// Whether the content is exactly the target.
    pub fn is_target(&self, target: &String) -> (r: bool)
        ensures
            r == (self@.content == target@),
    {
        self.content == *target
    }

    /// The distance from the target to the content.
    pub fn compare(&self, target: &String) -> (r: Option<u16>)
        requires
            target@.len() == self@.content.len() ==> target@.len() <= u16::MAX,
        ensures
            match r {
                Some(d) => distance_of(target@, self@.content) == Some(d as nat),
                None => distance_of(target@, self@.content) is None,
            },
    {
        distance(target, &self.content)
    }
}

/// Edits never change the length.
pub proof fn lemma_apply_edits_len(s: Seq<char>, edits: Seq<(usize, char)>)
    ensures
        apply_edits(s, edits).len() == s.len(),
    decreases edits.len(),
{
    if edits.len() > 0 {
        lemma_apply_edits_len(s, edits.drop_last());
    }
}

proof fn lemma_update_diff(s: Seq<char>, t: Seq<char>, p: int, c: char, n: int)
    requires
        0 <= p < t.len(),
        n <= t.len(),
    ensures
        count_diff(s, t.update(p, c), n) <= count_diff(s, t, n) + 1,
        n <= p ==> count_diff(s, t.update(p, c), n) == count_diff(s, t, n),
    decreases n,
{
    if n > 0 {
        lemma_update_diff(s, t, p, c, n - 1);
    }
}

/// Applying edits keeps the length and changes at most one position per edit.
pub proof fn lemma_apply_edits_diff(s: Seq<char>, edits: Seq<(usize, char)>)
    ensures
        apply_edits(s, edits).len() == s.len(),
        count_diff(s, apply_edits(s, edits), s.len() as int) <= edits.len(),
    decreases edits.len(),
{
    lemma_apply_edits_len(s, edits);
    if edits.len() == 0 {
        lemma_count_diff_self(s, s.len() as int);
    } else {
        let prev = apply_edits(s, edits.drop_last());
        lemma_apply_edits_diff(s, edits.drop_last());
        let (p, c) = edits.last();
        if (p as int) < prev.len() {
            lemma_update_diff(s, prev, p as int, c, s.len() as int);
        }
    }
}

proof fn lemma_count_diff_self(s: Seq<char>, n: int)
    ensures
        count_diff(s, s, n) == 0,
    decreases n,
{
    if n > 0 {
        lemma_count_diff_self(s, n - 1);
    }
}

/// A mutation by `count` edits keeps the content's length, differs from the
/// parent's content in at most `count` positions, and names the parent as its
/// lineage.
pub proof fn law_mutation(parent: IndividualView, child: IndividualView, count: nat)
    requires
        is_mutation(parent, child, count),
    ensures
        child.content.len() == parent.content.len(),
        count_diff(parent.content, child.content, parent.content.len() as int) <= count,
        child.parent == Some(parent.id),
{
    let edits = choose|edits: Seq<(usize, char)>|
        edits.len() == count && valid_edits(edits, parent.content.len()) && child.content
            == apply_edits(parent.content, edits);
    lemma_apply_edits_diff(parent.content, edits);
}

} // verus!
