//! Labels carried by published state changes, with their text forms.
use vstd::prelude::*;
use vstd::string::*;

verus! {

/// Whether two strings hold the same characters.
pub fn str_eq(a: &str, b: &str) -> (r: bool)
    ensures
        r == (a@ == b@),
{
    let x = a.as_bytes();
    let y = b.as_bytes();
    if x.len() != y.len() {
        return false;
    }
    let mut i: usize = 0;
    while i < x.len()
        invariant
            x@ == a.spec_bytes(),
            y@ == b.spec_bytes(),
            x@.len() == y@.len(),
            i <= x@.len(),
            forall|j: int| 0 <= j < i ==> x@[j] == y@[j],
        decreases x@.len() - i,
    {
        if x[i] != y[i] {
            proof {
                assert(x@[i as int] != y@[i as int]);
                assert(x@ != y@);
            }
            return false;
        }
        i = i + 1;
    }
    proof {
        assert(x@ =~= y@);
        vstd::utf8::encode_utf8_decode_utf8(a@);
        vstd::utf8::encode_utf8_decode_utf8(b@);
    }
    true
}

/// The collections whose changes are published.
#[derive(PartialEq, Eq, Structural, Clone, Copy, Debug)]
pub enum RedditCollections {
    USER,
    SUBREDDIT,
    POST,
}

/// Whether a change creates or updates an item.
#[derive(PartialEq, Eq, Structural, Clone, Copy, Debug)]
pub enum ChangeType {
    CREATED,
    UPDATED,
}

/// The status of a post.
#[derive(PartialEq, Eq, Structural, Clone, Copy, Debug)]
pub enum PostStatus {
    ACTIVE,
    ARCHIVED,
    DELETED,
}

/// A change of state to publish.
pub struct RedditStateChanges {
    pub state: RedditCollections,
    pub change: String,
    pub address: String,
    pub change_type: ChangeType,
}

/// The configuration of the module at genesis; it has no settings.
#[derive(PartialEq, Eq, Structural, Clone, Copy, Debug)]
pub struct RedditConfig {}

impl RedditCollections {
    /// The text form of a collection.
    pub open spec fn name(self) -> Seq<char> {
        match self {
            RedditCollections::USER => "USER"@,
            RedditCollections::SUBREDDIT => "SUBREDDIT"@,
            RedditCollections::POST => "POST"@,
        }
    }

    /// Returns the text form of the collection.
    pub fn to_string(&self) -> (r: String)
        ensures
            r@ == self.name(),
    {
        match self {
            RedditCollections::USER => String::from_str("USER"),
            RedditCollections::SUBREDDIT => String::from_str("SUBREDDIT"),
            RedditCollections::POST => String::from_str("POST"),
        }
    }

    /// Reads a collection from its text form.
    pub fn from_string(s: &str) -> (r: Result<Self, String>)
        ensures
            match r {
                Ok(c) => c.name() == s@,
                Err(msg) => {
                    &&& forall|c: RedditCollections| #[trigger] c.name() != s@
                    &&& msg@ == "Unknown Collection: "@ + s@
                },
            },
    {
        if str_eq(s, "USER") {
            Ok(RedditCollections::USER)
        } else if str_eq(s, "SUBREDDIT") {
            Ok(RedditCollections::SUBREDDIT)
        } else if str_eq(s, "POST") {
            Ok(RedditCollections::POST)
        } else {
            Err(String::from_str("Unknown Collection: ").concat(s))
        }
    }
}

impl ChangeType {
    /// The text form of a change type.
    pub open spec fn name(self) -> Seq<char> {
        match self {
            ChangeType::CREATED => "CREATED"@,
            ChangeType::UPDATED => "UPDATED"@,
        }
    }

    /// Returns the text form of the change type.
    pub fn to_string(&self) -> (r: String)
        ensures
            r@ == self.name(),
    {
        match self {
            ChangeType::CREATED => String::from_str("CREATED"),
            ChangeType::UPDATED => String::from_str("UPDATED"),
        }
    }

    /// Reads a change type from its text form.
    pub fn from_string(s: &str) -> (r: Result<Self, String>)
        ensures
            match r {
                Ok(c) => c.name() == s@,
                Err(msg) => {
                    &&& forall|c: ChangeType| #[trigger] c.name() != s@
                    &&& msg@ == "Unknown Changetype: "@ + s@
                },
            },
    {
        if str_eq(s, "CREATED") {
            Ok(ChangeType::CREATED)
        } else if str_eq(s, "UPDATED") {
            Ok(ChangeType::UPDATED)
        } else {
            Err(String::from_str("Unknown Changetype: ").concat(s))
        }
    }
}

impl PostStatus {
    /// The text form of a post status.
    pub open spec fn name(self) -> Seq<char> {
        match self {
            PostStatus::ACTIVE => "ACTIVE"@,
            PostStatus::ARCHIVED => "ARCHIVED"@,
            PostStatus::DELETED => "DELETED"@,
        }
    }

    /// Returns the text form of the status.
    pub fn to_string(&self) -> (r: String)
        ensures
            r@ == self.name(),
    {
        match self {
            PostStatus::ACTIVE => String::from_str("ACTIVE"),
            PostStatus::ARCHIVED => String::from_str("ARCHIVED"),
            PostStatus::DELETED => String::from_str("DELETED"),
        }
    }

    /// Reads a post status from its text form.
    pub fn from_string(s: &str) -> (r: Result<Self, String>)
        ensures
            match r {
                Ok(c) => c.name() == s@,
                Err(msg) => {
                    &&& forall|c: PostStatus| #[trigger] c.name() != s@
                    &&& msg@ == "Unknown status: "@ + s@
                },
            },
    {
        if str_eq(s, "ACTIVE") {
            Ok(PostStatus::ACTIVE)
        } else if str_eq(s, "ARCHIVED") {
            Ok(PostStatus::ARCHIVED)
        } else if str_eq(s, "DELETED") {
            Ok(PostStatus::DELETED)
        } else {
            Err(String::from_str("Unknown status: ").concat(s))
        }
    }
}

} // verus!
