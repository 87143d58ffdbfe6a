//! A blog post that moves from draft through two reviews to publication.

use vstd::prelude::*;
use vstd::string::StringExecFns;

verus! {

/// The stage that a post has reached.
#[derive(Clone, Copy, Debug, PartialEq, Eq, Structural)]
pub enum PostState {
    Draft,
    FirstPendingReview,
    SecondPendingReview,
    Published,
}

impl PostState {
    /// The stage after a review is requested: a draft goes to its first
    /// review, every other stage stays.
    pub open spec fn after_request_review(self) -> PostState {
        match self {
            PostState::Draft => PostState::FirstPendingReview,
            other => other,
        }
    }

    /// The stage after an approval: each review passes on to the next stage,
    /// a draft and a published post stay.
    pub open spec fn after_approve(self) -> PostState {
        match self {
            PostState::FirstPendingReview => PostState::SecondPendingReview,
            PostState::SecondPendingReview => PostState::Published,
            other => other,
        }
    }

    /// The stage after a rejection: a post under review goes back to draft, a
    /// draft and a published post stay.
    pub open spec fn after_reject(self) -> PostState {
        match self {
            PostState::FirstPendingReview => PostState::Draft,
            PostState::SecondPendingReview => PostState::Draft,
            other => other,
        }
    }

    /// The text that a post at this stage holds after `text` is handed in: a
    /// draft takes the text, every other stage is left with none.
    pub open spec fn text_after_add(self, text: Seq<char>) -> Seq<char> {
        match self {
            PostState::Draft => text,
            _ => Seq::empty(),
        }
    }

    /// The text that a post at this stage shows: its own once it is
    /// published, none before.
    pub open spec fn shown(self, text: Seq<char>) -> Seq<char> {
        match self {
            PostState::Published => text,
            _ => Seq::empty(),
        }
    }

    /// Requests a review.
    pub fn request_review(self) -> (next: PostState)
        ensures
            next == self.after_request_review(),
    {
        match self {
            PostState::Draft => PostState::FirstPendingReview,
            other => other,
        }
    }

    /// Approves.
    pub fn approve(self) -> (next: PostState)
        ensures
            next == self.after_approve(),
    {
        match self {
            PostState::FirstPendingReview => PostState::SecondPendingReview,
            PostState::SecondPendingReview => PostState::Published,
            other => other,
        }
    }

    /// Rejects.
    pub fn reject(self) -> (next: PostState)
        ensures
            next == self.after_reject(),
    {
        match self {
            PostState::FirstPendingReview => PostState::Draft,
            PostState::SecondPendingReview => PostState::Draft,
            other => other,
        }
    }

    /// The text that a post at this stage holds after `text` is handed in.
    pub fn add_text(&self, text: &str) -> (held: String)
        ensures
            held@ == self.text_after_add(text@),
    {
        match self {
            PostState::Draft => String::from_str(text),
            _ => String::new(),
        }
    }

    /// The text that `post` shows at this stage.
    pub fn content<'a>(&self, post: &'a Post) -> (shown: &'a str)
        ensures
            shown@ == self.shown(post@.content),
    {
        match self {
            PostState::Published => post.content.as_str(),
            _ => {
                let none: &'static str = "";
                proof {
                    reveal_strlit("");
                    assert(none@ =~= Seq::<char>::empty());
                }
                none
            },
        }
    }
}

/// A post, as mathematics: its stage and the text that it holds.
pub struct PostModel {
    pub state: PostState,
    pub content: Seq<char>,
}

/// A blog post.
pub struct Post {
    state: PostState,
    content: String,
}

impl View for Post {
    type V = PostModel;

    closed spec fn view(&self) -> PostModel {
        PostModel { state: self.state, content: self.content@ }
    }
}

impl Post {
    /// A draft without text.
    pub fn new() -> (post: Post)
        ensures
            post@ == (PostModel { state: PostState::Draft, content: Seq::empty() }),
    {
        Post { state: PostState::Draft, content: String::new() }
    }

    /// Hands `text` in. A draft then holds `text`; at every other stage the
    /// post is left with no text.
    pub fn add_text(&mut self, text: &str)
        ensures
            final(self)@.state == old(self)@.state,
            final(self)@.content == old(self)@.state.text_after_add(text@),
    {
        self.content = self.state.add_text(text);
    }

    /// The text that the post shows: its own once it is published, none
    /// before.
    pub fn content(&self) -> (shown: &str)
        ensures
            shown@ == self@.state.shown(self@.content),
    {
        self.state.content(self)
    }

    /// Requests a review of the post.
    pub fn request_review(&mut self)
        ensures
            final(self)@.state == old(self)@.state.after_request_review(),
            final(self)@.content == old(self)@.content,
    {
        self.state = self.state.request_review();
    }

    /// Approves the post.
    pub fn approve(&mut self)
        ensures
            final(self)@.state == old(self)@.state.after_approve(),
            final(self)@.content == old(self)@.content,
    {
        self.state = self.state.approve();
    }

    /// The stage that the post has reached.
    pub fn state(&self) -> (s: PostState)
        ensures
            s == self@.state,
    {
        self.state
    }
}

/// A post is published by one request for review followed by two approvals,
/// and by nothing less: from a draft, the text shows after exactly that, and
/// it does not show after the request alone or after one approval.
pub proof fn lemma_two_approvals_publish(text: Seq<char>)
    ensures
        PostState::Draft.after_request_review().after_approve().after_approve().shown(text)
            == text,
        PostState::Draft.shown(text) == Seq::<char>::empty(),
        PostState::Draft.after_request_review().shown(text) == Seq::<char>::empty(),
        PostState::Draft.after_request_review().after_approve().shown(text) == Seq::<
            char,
        >::empty(),
        PostState::Draft.after_approve() == PostState::Draft,
{
}

} // verus!
