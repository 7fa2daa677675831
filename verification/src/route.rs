//! Routes: labels written one after another, with an arrow between them.

use vstd::prelude::*;
use vstd::string::*;

verus! {

/// The texts of `parts` written one after another, with `sep` between
/// neighbours. No part gives the empty text.
pub open spec fn join(parts: Seq<Seq<char>>, sep: Seq<char>) -> Seq<char>
    decreases parts.len(),
{
    if parts.len() == 0 {
        Seq::empty()
    } else if parts.len() == 1 {
        parts[0]
    } else {
        join(parts.drop_last(), sep) + sep + parts.last()
    }
}

/// The text of each string of `items`.
pub open spec fn texts(items: Seq<String>) -> Seq<Seq<char>> {
    Seq::new(items.len(), |i: int| items[i]@)
}

/// The separator of a route: an arrow with a blank on either side.
pub open spec fn arrow() -> Seq<char> {
    " -> "@
}

/// The text of a route with the given stops: the stops in order, an arrow
/// between each two.
pub open spec fn route_text(stops: Seq<Seq<char>>) -> Seq<char> {
    join(stops, arrow())
}

/// What is written between two stops of a route.
enum Delimiter {
    /// " -> "
    Arrow,
}

impl Delimiter {
    fn as_str(&self) -> (s: &'static str)
        ensures
            s@ == arrow(),
    {
        match self {
            Delimiter::Arrow => " -> ",
        }
    }
}

/// Collects the stops of a route and writes them out as one line.
pub struct RouteBuilder {
    span: Vec<String>,
    delim: Delimiter,
}

impl View for RouteBuilder {
    type V = Seq<Seq<char>>;

    /// The stops collected so far, in order.
    closed spec fn view(&self) -> Seq<Seq<char>> {
        texts(self.span@)
    }
}

impl RouteBuilder {
    /// An empty route whose stops will be joined by `" -> "`.
    pub fn with_arrow() -> (builder: Self)
        ensures
            builder@ == Seq::<Seq<char>>::empty(),
    {
        let builder = Self { span: Vec::new(), delim: Delimiter::Arrow };
        assert(builder@ =~= Seq::<Seq<char>>::empty());
        builder
    }

    /// Adds a stop at the end of the route.
    pub fn push(&mut self, item: String)
        ensures
            final(self)@ == old(self)@.push(item@),
    {
        self.span.push(item);
        assert(self@ =~= old(self)@.push(item@));
    }

    /// Number of stops.
    pub fn len(&self) -> (n: usize)
        ensures
            n == self@.len(),
    {
        self.span.len()
    }

    /// Whether some stop has the text of `item`.
    pub fn contains(&self, item: &String) -> (found: bool)
        ensures
            found == self@.contains(item@),
    {
        let mut i: usize = 0;
        while i < self.span.len()
            invariant
                i <= self.span.len(),
                forall|j: int| 0 <= j < i ==> self@[j] != item@,
            decreases self.span.len() - i,
        {
            if self.span[i] == *item {
                assert(self@[i as int] == item@);
                return true;
            }
            i += 1;
        }
        false
    }

    /// Writes the route: the stops in order, an arrow between each two.
    /// A route without stops gives the empty string.
    pub fn build(self) -> (res: String)
        ensures
            res@ == route_text(self@),
    {
        let mut res = String::new();
        let len = self.span.len();
        let mut idx: usize = 0;
        while idx < len
            invariant
                len == self.span.len(),
                idx <= len,
                idx == 0 ==> res@ == Seq::<char>::empty(),
                idx > 0 ==> res@ == join(self@.take(idx as int), arrow()),
            decreases len - idx,
        {
            if idx > 0 {
                res.append(self.delim.as_str());
            }
            res.append(self.span[idx].as_str());
            proof {
                let done = self@.take(idx as int + 1);
                assert(done.last() == self@[idx as int]);
                assert(done.drop_last() =~= self@.take(idx as int));
                if idx == 0 {
                    assert(res@ =~= self@[0]);
                }
            }
            idx += 1;
        }
        proof {
            assert(self@.take(len as int) =~= self@);
        }
        res
    }
}

} // verus!
