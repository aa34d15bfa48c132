use vstd::prelude::*;

verus! {

/// The identity of one piece of context attached to a conversation message;
/// ids are handed out by a counter that never reuses a value.
#[derive(Clone, Copy, PartialEq, Eq, Structural, Debug)]
pub struct ContextId(pub u64);

impl ContextId {
    /// Returns the current id and steps the counter to the next one.
    pub fn post_inc(&mut self) -> (r: ContextId)
        requires
            old(self).0 < u64::MAX,
        ensures
            r == *old(self),
            final(self).0 == old(self).0 + 1,
    {
        let r = ContextId(self.0);
        self.0 = self.0 + 1;
        r
    }
}

/// What kind of source a piece of attached context comes from: a closed set
/// of variants, one per source, so that every cross-cutting operation can
/// match on it exhaustively.
#[derive(Clone, Copy, PartialEq, Eq, Structural, Debug)]
pub enum ContextKind {
    File,
    Directory,
    Symbol,
    FetchedUrl,
    Thread,
}

impl ContextKind {
    /// The name of the icon a renderer shows for this kind of context.
    pub fn icon(&self) -> (r: &'static str)
        ensures
            r@ == icon_name(*self),
    {
        proof {
            reveal_strlit("file");
            reveal_strlit("folder");
            reveal_strlit("code");
            reveal_strlit("globe");
            reveal_strlit("message_bubbles");
        }
        match self {
            ContextKind::File => "file",
            ContextKind::Directory => "folder",
            ContextKind::Symbol => "code",
            ContextKind::FetchedUrl => "globe",
            ContextKind::Thread => "message_bubbles",
        }
    }
}

/// The icon name of each context kind.
pub open spec fn icon_name(k: ContextKind) -> Seq<char> {
    match k {
        ContextKind::File => "file"@,
        ContextKind::Directory => "folder"@,
        ContextKind::Symbol => "code"@,
        ContextKind::FetchedUrl => "globe"@,
        ContextKind::Thread => "message_bubbles"@,
    }
}

} // verus!
