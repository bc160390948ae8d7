//! The message protocol: the closed set of tagged message variants exchanged
//! between server and clients, with their mathematical views.
use vstd::prelude::*;

verus! {

/// Identity a client declares when joining the room. Immutable once the
/// session is registered.
pub struct UserInfo {
    pub name: String,
    pub room: String,
}

/// Mathematical view of `UserInfo`: both fields as character sequences.
#[verifier::ext_equal]
pub struct UserView {
    pub name: Seq<char>,
    pub room: Seq<char>,
}

impl View for UserInfo {
    type V = UserView;

    open spec fn view(&self) -> UserView {
        UserView { name: self.name@, room: self.room@ }
    }
}

impl UserInfo {
    pub fn new(name: String, room: String) -> (u: UserInfo)
        ensures
            u@.name == name@,
            u@.room == room@,
    {
        UserInfo { name, room }
    }

    /// A deep copy whose view is identical.
    pub fn duplicate(&self) -> (u: UserInfo)
        ensures
            u@ == self@,
    {
        UserInfo { name: self.name.clone(), room: self.room.clone() }
    }
}

/// One protocol message. `Chat` carries an optional sender name: inbound
/// frames omit it, the room fills it in before fan-out. `Unrecognized` is the
/// total catch-all: any frame that matches no known shape decodes to it and
/// never aborts processing.
pub enum ProtocolMessage {
    Chat { text: String, from: Option<String> },
    Join { user: UserInfo },
    UserListUpdate { names: Vec<String> },
    Unrecognized { raw: String },
}

/// Mathematical view of `ProtocolMessage`.
#[verifier::ext_equal]
pub enum MessageView {
    Chat { text: Seq<char>, from: Option<Seq<char>> },
    Join { user: UserView },
    UserListUpdate { names: Seq<Seq<char>> },
    Unrecognized { raw: Seq<char> },
}

impl View for ProtocolMessage {
    type V = MessageView;

    open spec fn view(&self) -> MessageView {
        match self {
            ProtocolMessage::Chat { text, from } => MessageView::Chat {
                text: text@,
                from: match from {
                    Some(f) => Some(f@),
                    None => None,
                },
            },
            ProtocolMessage::Join { user } => MessageView::Join { user: user@ },
            ProtocolMessage::UserListUpdate { names } => MessageView::UserListUpdate {
                names: names@.map_values(|s: String| s@),
            },
            ProtocolMessage::Unrecognized { raw } => MessageView::Unrecognized { raw: raw@ },
        }
    }
}

impl ProtocolMessage {
    /// A deep copy whose view is identical.
    pub fn duplicate(&self) -> (m: ProtocolMessage)
        ensures
            m@ == self@,
    {
        match self {
            ProtocolMessage::Chat { text, from } => ProtocolMessage::Chat {
                text: text.clone(),
                from: match from {
                    Some(f) => Some(f.clone()),
                    None => None,
                },
            },
            ProtocolMessage::Join { user } => ProtocolMessage::Join { user: user.duplicate() },
            ProtocolMessage::UserListUpdate { names } => {
                let copied = duplicate_names(names);
                proof {
                    assert(copied@.map_values(|s: String| s@) =~= names@.map_values(
                        |s: String| s@,
                    ));
                }
                ProtocolMessage::UserListUpdate { names: copied }
            },
            ProtocolMessage::Unrecognized { raw } => ProtocolMessage::Unrecognized {
                raw: raw.clone(),
            },
        }
    }
}

/// A deep copy of a list of names, element views preserved.
pub fn duplicate_names(names: &Vec<String>) -> (r: Vec<String>)
    ensures
        r@.len() == names@.len(),
        forall|i: int| 0 <= i < names@.len() ==> r@[i]@ == names@[i]@,
{
    let mut r: Vec<String> = Vec::new();
    let mut i: usize = 0;
    while i < names.len()
        invariant
            i <= names@.len(),
            r@.len() == i,
            forall|j: int| 0 <= j < i ==> r@[j]@ == names@[j]@,
        decreases names@.len() - i,
    {
        r.push(names[i].clone());
        i = i + 1;
    }
    r
}

} // verus!
