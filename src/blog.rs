//! A blog post whose stages are the variants of one type: a draft, a post
//! under review, and a published post.
use vstd::prelude::*;
use vstd::string::StringExecFns;

verus! {

/// A post and the stage it is in. A post under review counts its approvals.
pub enum Post {
    Draft(String),
    PendingReview(String, i32),
    Published(String),
}

impl Post {
    /// The text of the post, whatever its stage.
    pub open spec fn text(&self) -> Seq<char> {
        match self {
            Post::Draft(c) => c@,
            Post::PendingReview(c, _) => c@,
            Post::Published(c) => c@,
        }
    }

    /// The approvals of a post under review; zero in any other stage.
    pub open spec fn approvals(&self) -> int {
        match self {
            Post::PendingReview(_, n) => *n as int,
            _ => 0,
        }
    }

    /// An empty draft.
    pub fn new() -> (p: Post)
        ensures
            p is Draft,
            p.text() == Seq::<char>::empty(),
    {
        Post::Draft(String::new())
    }

    /// Appends `text` to a draft; a post in any other stage is left as it is.
    pub fn add_text(&mut self, text: &str)
        ensures
            *old(self) is Draft ==> *final(self) is Draft && final(self).text() == old(self).text() + text@,
            !(*old(self) is Draft) ==> *final(self) == *old(self),
    {
        match self {
            Post::Draft(content) => content.append(text),
            _ => {},
        }
    }

    /// The text of a published post; nothing before publication.
    pub fn content(&self) -> (r: Option<&str>)
        ensures
            r is Some <==> self is Published,
            r matches Some(c) ==> c@ == self.text(),
    {
        match self {
            Post::Published(content) => Some(content.as_str()),
            _ => None,
        }
    }

    /// Sends a draft to review with no approvals yet; any other post is
    /// returned as it is.
    pub fn request_review(self) -> (p: Post)
        ensures
            self is Draft ==> p is PendingReview && p.approvals() == 0 && p.text() == self.text(),
            !(self is Draft) ==> p == self,
    {
        match self {
            Post::Draft(content) => Post::PendingReview(content, 0),
            _ => self,
        }
    }

    /// Approves a post under review: the second approval publishes it, a
    /// first one is counted. Any other post is returned as it is.
    pub fn approve(self) -> (p: Post)
        ensures
            self is PendingReview && self.approvals() >= 1 ==> p is Published && p.text() == self.text(),
            self is PendingReview && self.approvals() < 1 ==> p is PendingReview && p.approvals() == self.approvals()
                + 1 && p.text() == self.text(),
            !(self is PendingReview) ==> p == self,
    {
        match self {
            Post::PendingReview(content, approvals) => {
                if approvals >= 1 {
                    Post::Published(content)
                } else {
                    Post::PendingReview(content, approvals + 1)
                }
            },
            _ => self,
        }
    }

    /// Sends a post under review back to draft; any other post is returned
    /// as it is.
    pub fn reject(self) -> (p: Post)
        ensures
            self is PendingReview ==> p is Draft && p.text() == self.text(),
            !(self is PendingReview) ==> p == self,
    {
        match self {
            Post::PendingReview(content, _) => Post::Draft(content),
            _ => self,
        }
    }
}

} // verus!
