//! The layout: a bijection between the alphabet and the key positions,
//! with its canonical textual encoding.

use vstd::prelude::*;

use crate::errors::Error;

verus! {

/// A layout assigns one character to every key position: `keys[p]` is the
/// character occupying position `p` of the canonical position order. The
/// canonical encoding of a layout is exactly this sequence.
#[derive(Debug, Clone, PartialEq, Eq)]
pub struct Layout {
    pub keys: Vec<char>,
}

/// No character occurs twice.
pub open spec fn distinct_chars(s: Seq<char>) -> bool {
    forall|i: int, j: int| 0 <= i < j < s.len() ==> s[i] != s[j]
}

/// Every character of `s` belongs to the alphabet.
pub open spec fn all_in_alpha(s: Seq<char>, alpha: Seq<char>) -> bool {
    forall|i: int| 0 <= i < s.len() ==> alpha.contains(#[trigger] s[i])
}

/// What `decode` accepts: the text covers every slot exactly once with
/// pairwise distinct alphabet characters.
pub open spec fn decode_ok(text: Seq<char>, alpha: Seq<char>, slots: nat) -> bool {
    &&& text.len() == slots
    &&& distinct_chars(text)
    &&& all_in_alpha(text, alpha)
}

/// The meaning of `decode`: the key sequence of the accepted layout, or
/// nothing for a rejected text.
pub open spec fn spec_decode(text: Seq<char>, alpha: Seq<char>, slots: nat) -> Option<Seq<char>> {
    if decode_ok(text, alpha, slots) {
        Some(text)
    } else {
        None::<Seq<char>>
    }
}

/// The position of the first occurrence of `c`, if any.
pub open spec fn spec_pos_of(s: Seq<char>, c: char) -> Option<int>
    decreases s.len(),
{
    if s.len() == 0 {
        None::<int>
    } else if s[0] == c {
        Some(0)
    } else {
        match spec_pos_of(s.drop_first(), c) {
            Some(p) => Some(p + 1),
            None => None,
        }
    }
}

/// `spec_pos_of` returns exactly the first index holding `c`, and `None`
/// exactly when `c` does not occur.
pub proof fn lemma_pos_of(s: Seq<char>, c: char)
    ensures
        spec_pos_of(s, c) matches Some(p) ==> 0 <= p < s.len() && s[p] == c && forall|k: int|
            0 <= k < p ==> s[k] != c,
        spec_pos_of(s, c) is None ==> forall|k: int| 0 <= k < s.len() ==> s[k] != c,
    decreases s.len(),
{
    if s.len() > 0 && s[0] != c {
        let t = s.drop_first();
        lemma_pos_of(t, c);
        match spec_pos_of(t, c) {
            Some(p) => {
                assert(spec_pos_of(s, c) == Some(p + 1));
                assert(s[p + 1] == t[p]);
                assert forall|k: int| 0 <= k < p + 1 implies s[k] != c by {
                    if k > 0 {
                        assert(s[k] == t[k - 1]);
                    }
                }
            },
            None => {
                assert forall|k: int| 0 <= k < s.len() implies s[k] != c by {
                    if k > 0 {
                        assert(s[k] == t[k - 1]);
                    }
                }
            },
        }
    }
}

/// Conversely, the first index holding `c` is what `spec_pos_of` returns.
pub proof fn lemma_pos_of_at(s: Seq<char>, c: char, i: int)
    requires
        0 <= i < s.len(),
        s[i] == c,
        forall|k: int| 0 <= k < i ==> s[k] != c,
    ensures
        spec_pos_of(s, c) == Some(i),
    decreases s.len(),
{
    if i > 0 {
        lemma_pos_of_at(s.drop_first(), c, i - 1);
    }
}

impl Layout {
    /// A layout is well formed for an alphabet and a slot count when its
    /// key sequence is an accepted encoding.
    pub open spec fn wf(self, alpha: Seq<char>, slots: nat) -> bool {
        decode_ok(self.keys@, alpha, slots)
    }

    /// Parses a canonical encoding. Accepts exactly the texts whose length
    /// equals the slot count, whose characters are pairwise distinct, and
    /// whose characters all belong to the alphabet; everything else is a
    /// `ParseError`.
    pub fn decode(text: &Vec<char>, alphabet: &Vec<char>, slots: usize) -> (r: Result<
        Layout,
        Error,
    >)
        ensures
            r is Ok <==> decode_ok(text@, alphabet@, slots as nat),
            r matches Ok(l) ==> Some(l.keys@) == spec_decode(text@, alphabet@, slots as nat),
            r is Err ==> r == Err::<Layout, Error>(Error::ParseError),
    {
        if text.len() != slots {
            return Err(Error::ParseError);
        }
        let mut i: usize = 0;
        while i < text.len()
            invariant
                0 <= i <= text@.len(),
                forall|j: int, k: int| 0 <= j < k < i ==> text@[j] != text@[k],
                forall|j: int| 0 <= j < i ==> alphabet@.contains(#[trigger] text@[j]),
            decreases text@.len() - i,
        {
            let c = text[i];
            if !contains_char(alphabet, c) {
                return Err(Error::ParseError);
            }
            let mut j: usize = 0;
            while j < i
                invariant
                    0 <= j <= i < text@.len(),
                    forall|k: int| 0 <= k < j ==> text@[k] != text@[i as int],
                decreases i - j,
            {
                if text[j] == c {
                    return Err(Error::ParseError);
                }
                j = j + 1;
            }
            i = i + 1;
        }
        Ok(Layout { keys: crate::copy_chars(text) })
    }

    /// The canonical encoding: one character per position, in canonical
    /// position order.
    pub fn encode(&self) -> (r: Vec<char>)
        ensures
            r@ == self.keys@,
    {
        crate::copy_chars(&self.keys)
    }

    /// The character occupying the position.
    pub fn char_at(&self, pos: usize) -> (r: char)
        requires
            pos < self.keys@.len(),
        ensures
            r == self.keys@[pos as int],
    {
        self.keys[pos]
    }

    /// The position holding the character, if the character is placed.
    pub fn pos_of(&self, c: char) -> (r: Option<usize>)
        ensures
            r matches Some(p) ==> spec_pos_of(self.keys@, c) == Some(p as int),
            r is None ==> spec_pos_of(self.keys@, c) is None,
    {
        let mut i: usize = 0;
        while i < self.keys.len()
            invariant
                0 <= i <= self.keys@.len(),
                forall|k: int| 0 <= k < i ==> self.keys@[k] != c,
            decreases self.keys@.len() - i,
        {
            if self.keys[i] == c {
                proof {
                    lemma_pos_of_at(self.keys@, c, i as int);
                }
                return Some(i);
            }
            i = i + 1;
        }
        proof {
            lemma_pos_of(self.keys@, c);
        }
        None
    }

    /// An element-wise copy.
    pub fn duplicate(&self) -> (r: Layout)
        ensures
            r.keys@ == self.keys@,
    {
        Layout { keys: crate::copy_chars(&self.keys) }
    }
}

/// Whether the sequence holds the character.
pub fn contains_char(v: &Vec<char>, c: char) -> (r: bool)
    ensures
        r <==> v@.contains(c),
{
    let mut i: usize = 0;
    while i < v.len()
        invariant
            0 <= i <= v@.len(),
            forall|k: int| 0 <= k < i ==> v@[k] != c,
        decreases v@.len() - i,
    {
        if v[i] == c {
            return true;
        }
        i = i + 1;
    }
    false
}

/// Round trip: any layout that `decode` accepted encodes to a text that
/// `decode` accepts again, and decoding that text yields the same layout.
/// `encode` returns exactly `l.keys@`, and `decode` returns exactly
/// `spec_decode` of its text, so decoding an encoded layout succeeds and
/// reproduces its key sequence.
pub proof fn lemma_round_trip(l: Layout, alpha: Seq<char>, slots: nat)
    requires
        l.wf(alpha, slots),
    ensures
        spec_decode(l.keys@, alpha, slots) == Some(l.keys@),
{
}

} // verus!
