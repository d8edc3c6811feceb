//! Image handles and the file-extension allow-list.
//!
//! An image is identified by its file name alone; a name qualifies for the
//! candidate pool exactly when its extension (the part after the last dot,
//! which must not be the leading character) is `jpg` or `png`, compared
//! case-sensitively.

use vstd::prelude::*;

verus! {

/// The extension of a file name: the characters after the last dot.
/// A name with no dot, or whose only dot is the leading character
/// (a hidden file), has no extension.
pub open spec fn ext_of(name: Seq<char>) -> Option<Seq<char>>
    decreases name.len(),
{
    if name.len() <= 1 {
        None
    } else if name.last() == '.' {
        Some(Seq::empty())
    } else {
        match ext_of(name.drop_last()) {
            Some(e) => Some(e.push(name.last())),
            None => None,
        }
    }
}

pub open spec fn jpg_ext() -> Seq<char> {
    seq!['j', 'p', 'g']
}

pub open spec fn png_ext() -> Seq<char> {
    seq!['p', 'n', 'g']
}

/// A file name qualifies for the pool when its extension is on the
/// allow-list.
pub open spec fn name_qualifies(name: Seq<char>) -> bool {
    ext_of(name) == Some(jpg_ext()) || ext_of(name) == Some(png_ext())
}

/// A name whose only possible dot is the leading character has no extension.
proof fn lemma_ext_of_no_dot(name: Seq<char>)
    requires
        forall|j: int| 1 <= j < name.len() ==> name[j] != '.',
    ensures
        ext_of(name) is None,
    decreases name.len(),
{
    if name.len() > 1 {
        assert(name.last() != '.');
        assert(forall|j: int| 1 <= j < name.drop_last().len() ==> name.drop_last()[j] != '.');
        lemma_ext_of_no_dot(name.drop_last());
    }
}

/// If the last dot of a name stands at index `p` (not leading), the
/// extension is exactly the characters after it.
proof fn lemma_ext_of_last_dot(name: Seq<char>, p: int)
    requires
        1 <= p < name.len(),
        name[p] == '.',
        forall|j: int| p < j < name.len() ==> name[j] != '.',
    ensures
        ext_of(name) == Some(name.subrange(p + 1, name.len() as int)),
    decreases name.len(),
{
    if p == name.len() - 1 {
        assert(name.last() == '.');
        assert(name.subrange(p + 1, name.len() as int) =~= Seq::<char>::empty());
    } else {
        assert(name.last() != '.');
        let prefix = name.drop_last();
        assert(prefix[p] == '.');
        assert(forall|j: int| p < j < prefix.len() ==> prefix[j] != '.');
        lemma_ext_of_last_dot(prefix, p);
        assert(prefix.subrange(p + 1, prefix.len() as int).push(name.last()) =~= name.subrange(
            p + 1,
            name.len() as int,
        ));
    }
}

/// A handle to one discovered image, identified by its file name.
#[derive(PartialEq, Eq, Debug)]
pub struct ImageRef {
    name: Vec<char>,
}

impl View for ImageRef {
    type V = Seq<char>;

    closed spec fn view(&self) -> Seq<char> {
        self.name@
    }
}

impl ImageRef {
    pub fn new(name: Vec<char>) -> (r: ImageRef)
        ensures
            r@ == name@,
    {
        ImageRef { name }
    }

    pub fn name(&self) -> (r: &Vec<char>)
        ensures
            r@ == self@,
    {
        &self.name
    }

    /// Does the name's extension stand on the allow-list?
    pub fn qualifies(&self) -> (r: bool)
        ensures
            r == name_qualifies(self@),
    {
        let n = self.name.len();
        let mut i = n;
        while i > 1
            invariant
                i <= n,
                n == self.name.len(),
                forall|j: int| i <= j < n ==> self.name@[j] != '.',
            decreases i,
        {
            i = i - 1;
            if self.name[i] == '.' {
                proof {
                    lemma_ext_of_last_dot(self@, i as int);
                }
                return self.ext_matches(i + 1);
            }
        }
        proof {
            lemma_ext_of_no_dot(self@);
        }
        false
    }

    /// Do the characters from `start` on spell an allowed extension?
    fn ext_matches(&self, start: usize) -> (r: bool)
        requires
            start <= self@.len(),
        ensures
            r == (self@.subrange(start as int, self@.len() as int) == jpg_ext()
                || self@.subrange(start as int, self@.len() as int) == png_ext()),
    {
        let ghost sub = self@.subrange(start as int, self@.len() as int);
        let n = self.name.len();
        if n - start != 3 {
            assert(sub.len() != 3);
            return false;
        }
        let c0 = self.name[start];
        let c1 = self.name[start + 1];
        let c2 = self.name[start + 2];
        proof {
            assert(sub[0] == c0 && sub[1] == c1 && sub[2] == c2);
        }
        if c0 == 'j' && c1 == 'p' && c2 == 'g' {
            assert(sub =~= jpg_ext());
            true
        } else if c0 == 'p' && c1 == 'n' && c2 == 'g' {
            assert(sub =~= png_ext());
            true
        } else {
            assert(sub != jpg_ext() && sub != png_ext());
            false
        }
    }
}

} // verus!
