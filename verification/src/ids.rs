//! The identifiers of the stored things, and of the nodes of the drawn graph.

use crate::text::{
    chars_of, concat, decimal, digits, find_char, parse_number, parse_range, parsed, position_of,
};
use vstd::prelude::*;

verus! {

/// Names a concept: its index in the store.
#[derive(Clone, Copy, Debug, Hash, PartialEq, Eq, Structural, PartialOrd, Ord)]
pub struct ConceptID(pub usize);

/// Names an activity: its index in the store.
#[derive(Clone, Copy, Debug, Hash, PartialEq, Eq, Structural, PartialOrd, Ord)]
pub struct ActivityID(pub usize);

/// Names a representation: its index in the store.
#[derive(Clone, Copy, Debug, Hash, PartialEq, Eq, Structural, PartialOrd, Ord)]
pub struct RepresentationID(pub usize);

/// Names a course: its index in the store.
#[derive(Clone, Copy, Debug, Hash, PartialEq, Eq, Structural, PartialOrd, Ord)]
pub struct CourseID(pub usize);

/// Names a concept, either as such or in one of its representations.
#[derive(Clone, Copy, Debug, Hash, PartialEq, Eq, Structural, PartialOrd, Ord)]
pub struct ConceptRepresentationID {
    pub concept: ConceptID,
    pub representation: Option<RepresentationID>,
}

/// Names a node of the drawn graph: a concept (by the number of its
/// `ConceptID`), or a pass-through node that carries an edge across a row.
#[derive(Clone, Copy, Debug, Hash, PartialEq, Eq, Structural, PartialOrd, Ord)]
pub struct NodeID(pub usize);

/// Any identifier.
#[derive(Clone, Copy, Debug, PartialEq, Eq, Structural)]
pub enum AnyID {
    Concept(ConceptID),
    Course(CourseID),
    Activity(ActivityID),
    Representation(RepresentationID),
    ConceptRepresentation(ConceptRepresentationID),
}

impl From<ConceptID> for NodeID {
    fn from(x: ConceptID) -> (n: Self)
        ensures
            n == NodeID(x.0),
    {
        NodeID(x.0)
    }
}

impl vstd::std_specs::convert::FromSpecImpl<ConceptID> for NodeID {
    open spec fn obeys_from_spec() -> bool {
        true
    }

    open spec fn from_spec(x: ConceptID) -> Self {
        NodeID(x.0)
    }
}

impl From<ConceptID> for ConceptRepresentationID {
    fn from(concept: ConceptID) -> (id: Self)
        ensures
            id == (ConceptRepresentationID { concept, representation: None }),
    {
        ConceptRepresentationID { concept, representation: None }
    }
}

impl vstd::std_specs::convert::FromSpecImpl<ConceptID> for ConceptRepresentationID {
    open spec fn obeys_from_spec() -> bool {
        true
    }

    open spec fn from_spec(concept: ConceptID) -> Self {
        ConceptRepresentationID { concept, representation: None }
    }
}

impl From<(ConceptID, RepresentationID)> for ConceptRepresentationID {
    fn from(ids: (ConceptID, RepresentationID)) -> (id: Self)
        ensures
            id == (ConceptRepresentationID { concept: ids.0, representation: Some(ids.1) }),
    {
        ConceptRepresentationID { concept: ids.0, representation: Some(ids.1) }
    }
}

impl vstd::std_specs::convert::FromSpecImpl<(ConceptID, RepresentationID)> for ConceptRepresentationID {
    open spec fn obeys_from_spec() -> bool {
        true
    }

    open spec fn from_spec(ids: (ConceptID, RepresentationID)) -> Self {
        ConceptRepresentationID { concept: ids.0, representation: Some(ids.1) }
    }
}

/// Why a text is not the written form of an identifier.
#[derive(Clone, Copy, Debug, PartialEq, Eq, Structural)]
pub enum ParseError {
    /// Where a number belongs there is none, or one too large.
    NotANumber,
    /// The text does not begin with the letter of a kind of thing.
    UnknownKind,
}

impl ConceptID {
    /// The identifier as pages write it: `c` and the number.
    pub open spec fn html_spec(self) -> Seq<char> {
        "c"@ + digits(self.0 as nat)
    }

    /// The address of the concept's page.
    pub open spec fn url_spec(self) -> Seq<char> {
        "/concept/"@ + digits(self.0 as nat)
    }

    /// The identifier as pages write it.
    pub fn html(&self) -> (s: String)
        ensures
            s@ == self.html_spec(),
    {
        concat("c", decimal(self.0).as_str())
    }

    /// The address of the page.
    pub fn url(&self) -> (s: String)
        ensures
            s@ == self.url_spec(),
    {
        concat("/concept/", decimal(self.0).as_str())
    }

    /// The identifier that `x` is the number of.
    pub fn parse(x: &str) -> (r: Result<Self, ParseError>)
        ensures
            r == match parsed(x@) {
                Some(n) => Ok::<Self, ParseError>(ConceptID(n)),
                None => Err(ParseError::NotANumber),
            },
    {
        match parse_number(x) {
            Some(n) => Ok(ConceptID(n)),
            None => Err(ParseError::NotANumber),
        }
    }
}

impl ActivityID {
    /// The identifier as pages write it: `a` and the number.
    pub open spec fn html_spec(self) -> Seq<char> {
        "a"@ + digits(self.0 as nat)
    }

    /// The address of the activity's page.
    pub open spec fn url_spec(self) -> Seq<char> {
        "/activity/"@ + digits(self.0 as nat)
    }

    /// The identifier as pages write it.
    pub fn html(&self) -> (s: String)
        ensures
            s@ == self.html_spec(),
    {
        concat("a", decimal(self.0).as_str())
    }

    /// The address of the page.
    pub fn url(&self) -> (s: String)
        ensures
            s@ == self.url_spec(),
    {
        concat("/activity/", decimal(self.0).as_str())
    }

    /// The identifier that `x` is the number of.
    pub fn parse(x: &str) -> (r: Result<Self, ParseError>)
        ensures
            r == match parsed(x@) {
                Some(n) => Ok::<Self, ParseError>(ActivityID(n)),
                None => Err(ParseError::NotANumber),
            },
    {
        match parse_number(x) {
            Some(n) => Ok(ActivityID(n)),
            None => Err(ParseError::NotANumber),
        }
    }
}

impl RepresentationID {
    /// The identifier as pages write it: `r` and the number.
    pub open spec fn html_spec(self) -> Seq<char> {
        "r"@ + digits(self.0 as nat)
    }

    /// The address of the representation's page.
    pub open spec fn url_spec(self) -> Seq<char> {
        "/representation/"@ + digits(self.0 as nat)
    }

    /// The identifier as pages write it.
    pub fn html(&self) -> (s: String)
        ensures
            s@ == self.html_spec(),
    {
        concat("r", decimal(self.0).as_str())
    }

    /// The address of the page.
    pub fn url(&self) -> (s: String)
        ensures
            s@ == self.url_spec(),
    {
        concat("/representation/", decimal(self.0).as_str())
    }

    /// The identifier that `x` is the number of.
    pub fn parse(x: &str) -> (r: Result<Self, ParseError>)
        ensures
            r == match parsed(x@) {
                Some(n) => Ok::<Self, ParseError>(RepresentationID(n)),
                None => Err(ParseError::NotANumber),
            },
    {
        match parse_number(x) {
            Some(n) => Ok(RepresentationID(n)),
            None => Err(ParseError::NotANumber),
        }
    }
}

impl CourseID {
    /// The identifier as pages write it: `C` and the number.
    pub open spec fn html_spec(self) -> Seq<char> {
        "C"@ + digits(self.0 as nat)
    }

    /// The address of the course's page.
    pub open spec fn url_spec(self) -> Seq<char> {
        "/course/"@ + digits(self.0 as nat)
    }

    /// The identifier as pages write it.
    pub fn html(&self) -> (s: String)
        ensures
            s@ == self.html_spec(),
    {
        concat("C", decimal(self.0).as_str())
    }

    /// The address of the page.
    pub fn url(&self) -> (s: String)
        ensures
            s@ == self.url_spec(),
    {
        concat("/course/", decimal(self.0).as_str())
    }

    /// The identifier that `x` is the number of.
    pub fn parse(x: &str) -> (r: Result<Self, ParseError>)
        ensures
            r == match parsed(x@) {
                Some(n) => Ok::<Self, ParseError>(CourseID(n)),
                None => Err(ParseError::NotANumber),
            },
    {
        match parse_number(x) {
            Some(n) => Ok(CourseID(n)),
            None => Err(ParseError::NotANumber),
        }
    }
}

/// The concept in a representation that `x` writes: either `c`, the
/// concept's number, `-r` and the representation's number (what follows a
/// further `-` is not read), or the two numbers with a `/` between them (what
/// follows a further `/` is not read).
pub open spec fn manifestation(x: Seq<char>) -> Option<ConceptRepresentationID> {
    if x.len() == 0 {
        None
    } else if x[0] == 'c' {
        let dash = position_of(x, '-', 1);
        let end = position_of(x, '-', dash + 1);
        match parsed(x.subrange(1, dash)) {
            None => None,
            Some(c) => if dash + 1 >= x.len() || x[dash + 1] != 'r' {
                None
            } else {
                match parsed(x.subrange(dash + 2, end)) {
                    None => None,
                    Some(r) => Some(
                        ConceptRepresentationID {
                            concept: ConceptID(c),
                            representation: Some(RepresentationID(r)),
                        },
                    ),
                }
            },
        }
    } else {
        let slash = position_of(x, '/', 0);
        let end = position_of(x, '/', slash + 1);
        match parsed(x.subrange(0, slash)) {
            None => None,
            Some(c) => if slash >= x.len() {
                None
            } else {
                match parsed(x.subrange(slash + 1, end)) {
                    None => None,
                    Some(r) => Some(
                        ConceptRepresentationID {
                            concept: ConceptID(c),
                            representation: Some(RepresentationID(r)),
                        },
                    ),
                }
            },
        }
    }
}

impl ConceptRepresentationID {
    /// The identifier as pages write it: that of the concept, and where there
    /// is a representation, `-` and that of the representation.
    pub open spec fn html_spec(self) -> Seq<char> {
        match self.representation {
            Some(rid) => self.concept.html_spec() + "-"@ + rid.html_spec(),
            None => self.concept.html_spec(),
        }
    }

    /// The identifier as pages write it.
    pub fn html(&self) -> (s: String)
        ensures
            s@ == self.html_spec(),
    {
        match self.representation {
            Some(rid) => {
                let head = concat(self.concept.html().as_str(), "-");
                concat(head.as_str(), rid.html().as_str())
            },
            None => self.concept.html(),
        }
    }

    /// The address of the page: that of the concept.
    /// The address of the page.
    pub fn url(&self) -> (s: String)
        ensures
            s@ == self.concept.url_spec(),
    {
        self.concept.url()
    }

    /// The concept in a representation that `x` writes.
    pub fn str2manifestation(x: &str) -> (r: Option<Self>)
        ensures
            r == manifestation(x@),
    {
        let chars = chars_of(x);
        if chars.len() == 0 {
            return None;
        }
        let n = chars.len();
        if chars[0] == 'c' {
            let dash = find_char(&chars, '-', 1);
            let concept = match parse_range(&chars, 1, dash) {
                Some(c) => ConceptID(c),
                None => {
                    return None;
                },
            };
            if dash >= n - 1 || chars[dash + 1] != 'r' {
                return None;
            }
            let end = find_char(&chars, '-', dash + 1);
            proof {
                lemma_position_of(chars@, '-', dash + 1);
            }
            match parse_range(&chars, dash + 2, end) {
                Some(r) => Some(
                    ConceptRepresentationID { concept, representation: Some(RepresentationID(r)) },
                ),
                None => None,
            }
        } else {
            let slash = find_char(&chars, '/', 0);
            let concept = match parse_range(&chars, 0, slash) {
                Some(c) => ConceptID(c),
                None => {
                    return None;
                },
            };
            if slash >= n {
                return None;
            }
            let end = find_char(&chars, '/', slash + 1);
            match parse_range(&chars, slash + 1, end) {
                Some(r) => Some(
                    ConceptRepresentationID { concept, representation: Some(RepresentationID(r)) },
                ),
                None => None,
            }
        }
    }

    /// The identifier that `x` writes: a concept in a representation, or a
    /// concept by its number alone.
    pub fn parse(x: &str) -> (r: Result<Self, ParseError>)
        ensures
            r == match manifestation(x@) {
                Some(id) => Ok::<Self, ParseError>(id),
                None => match parsed(x@) {
                    Some(n) => Ok(
                        ConceptRepresentationID { concept: ConceptID(n), representation: None },
                    ),
                    None => Err(ParseError::NotANumber),
                },
            },
    {
        match ConceptRepresentationID::str2manifestation(x) {
            Some(id) => Ok(id),
            None => match parse_number(x) {
                Some(n) => Ok(
                    ConceptRepresentationID { concept: ConceptID(n), representation: None },
                ),
                None => Err(ParseError::NotANumber),
            },
        }
    }
}

/// What `x` names, going by its first letter: `c` a concept (in a
/// representation, where an `r` follows anywhere), `C` a course, `a` an
/// activity, `r` a representation.
pub open spec fn any_id(x: Seq<char>) -> Result<AnyID, ParseError> {
    let number = parsed(x.skip(1));
    if x.len() == 0 {
        Err(ParseError::UnknownKind)
    } else if x[0] == 'c' {
        if x.contains('r') {
            match manifestation(x) {
                Some(id) => Ok(AnyID::ConceptRepresentation(id)),
                None => match parsed(x) {
                    Some(n) => Ok(
                        AnyID::ConceptRepresentation(
                            ConceptRepresentationID { concept: ConceptID(n), representation: None },
                        ),
                    ),
                    None => Err(ParseError::NotANumber),
                },
            }
        } else {
            match number {
                Some(n) => Ok(AnyID::Concept(ConceptID(n))),
                None => Err(ParseError::NotANumber),
            }
        }
    } else if x[0] == 'C' {
        match number {
            Some(n) => Ok(AnyID::Course(CourseID(n))),
            None => Err(ParseError::NotANumber),
        }
    } else if x[0] == 'a' {
        match number {
            Some(n) => Ok(AnyID::Activity(ActivityID(n))),
            None => Err(ParseError::NotANumber),
        }
    } else if x[0] == 'r' {
        match number {
            Some(n) => Ok(AnyID::Representation(RepresentationID(n))),
            None => Err(ParseError::NotANumber),
        }
    } else {
        Err(ParseError::UnknownKind)
    }
}

impl AnyID {
    /// The identifier that `s` writes.
    pub fn parse(s: &str) -> (r: Result<Self, ParseError>)
        ensures
            r == any_id(s@),
    {
        let chars = chars_of(s);
        if chars.len() == 0 {
            return Err(ParseError::UnknownKind);
        }
        let first = chars[0];
        assert(chars@.subrange(1, chars@.len() as int) =~= chars@.skip(1));
        let number = parse_range(&chars, 1, chars.len());
        if first == 'c' {
            let at = find_char(&chars, 'r', 0);
            proof {
                lemma_position_of(chars@, 'r', 0);
            }
            if at < chars.len() {
                match ConceptRepresentationID::parse(s) {
                    Ok(id) => Ok(AnyID::ConceptRepresentation(id)),
                    Err(e) => Err(e),
                }
            } else {
                match number {
                    Some(n) => Ok(AnyID::Concept(ConceptID(n))),
                    None => Err(ParseError::NotANumber),
                }
            }
        } else if first == 'C' {
            match number {
                Some(n) => Ok(AnyID::Course(CourseID(n))),
                None => Err(ParseError::NotANumber),
            }
        } else if first == 'a' {
            match number {
                Some(n) => Ok(AnyID::Activity(ActivityID(n))),
                None => Err(ParseError::NotANumber),
            }
        } else if first == 'r' {
            match number {
                Some(n) => Ok(AnyID::Representation(RepresentationID(n))),
                None => Err(ParseError::NotANumber),
            }
        } else {
            Err(ParseError::UnknownKind)
        }
    }
}

impl std::str::FromStr for ConceptID {
    type Err = ParseError;

    /// The identifier that `x` is the number of.
    fn from_str(x: &str) -> (r: Result<Self, ParseError>)
        ensures
            r == match parsed(x@) {
                Some(n) => Ok::<Self, ParseError>(ConceptID(n)),
                None => Err(ParseError::NotANumber),
            },
    {
        ConceptID::parse(x)
    }
}

impl std::str::FromStr for ActivityID {
    type Err = ParseError;

    /// The identifier that `x` is the number of.
    fn from_str(x: &str) -> (r: Result<Self, ParseError>)
        ensures
            r == match parsed(x@) {
                Some(n) => Ok::<Self, ParseError>(ActivityID(n)),
                None => Err(ParseError::NotANumber),
            },
    {
        ActivityID::parse(x)
    }
}

impl std::str::FromStr for RepresentationID {
    type Err = ParseError;

    /// The identifier that `x` is the number of.
    fn from_str(x: &str) -> (r: Result<Self, ParseError>)
        ensures
            r == match parsed(x@) {
                Some(n) => Ok::<Self, ParseError>(RepresentationID(n)),
                None => Err(ParseError::NotANumber),
            },
    {
        RepresentationID::parse(x)
    }
}

impl std::str::FromStr for CourseID {
    type Err = ParseError;

    /// The identifier that `x` is the number of.
    fn from_str(x: &str) -> (r: Result<Self, ParseError>)
        ensures
            r == match parsed(x@) {
                Some(n) => Ok::<Self, ParseError>(CourseID(n)),
                None => Err(ParseError::NotANumber),
            },
    {
        CourseID::parse(x)
    }
}

impl std::str::FromStr for ConceptRepresentationID {
    type Err = ParseError;

    /// The identifier that `x` writes: a concept in a representation, or a
    /// concept by its number alone.
    fn from_str(x: &str) -> (r: Result<Self, ParseError>)
        ensures
            r == match manifestation(x@) {
                Some(id) => Ok::<Self, ParseError>(id),
                None => match parsed(x@) {
                    Some(n) => Ok(
                        ConceptRepresentationID { concept: ConceptID(n), representation: None },
                    ),
                    None => Err(ParseError::NotANumber),
                },
            },
    {
        ConceptRepresentationID::parse(x)
    }
}

impl std::str::FromStr for AnyID {
    type Err = ParseError;

    /// The identifier that `x` writes.
    fn from_str(x: &str) -> (r: Result<Self, ParseError>)
        ensures
            r == any_id(x@),
    {
        AnyID::parse(x)
    }
}

/// `position_of` finds the character where there is one, and only there.
pub proof fn lemma_position_of(s: Seq<char>, c: char, from: int)
    requires
        0 <= from <= s.len(),
    ensures
        from <= position_of(s, c, from) <= s.len(),
        position_of(s, c, from) < s.len() ==> s[position_of(s, c, from)] == c,
        forall|i: int| from <= i < position_of(s, c, from) ==> s[i] != c,
        from == 0 ==> (position_of(s, c, from) < s.len() <==> s.contains(c)),
    decreases s.len() - from,
{
    if from < s.len() && s[from] != c {
        lemma_position_of(s, c, from + 1);
    }
}

} // verus!
