//! A scripted dialogue, one step per message from the user.
//!
//! The dialogue asks for the user's name, then for their mood, and goes on
//! asking until the mood, in lower case, is `ok`. It is held as an explicit
//! state machine: each call of [`Scenario::resume`] reads the user's message,
//! writes the reply and moves to the next stage.

use vstd::prelude::*;
use vstd::string::*;

verus! {

/// What travels between the user and the dialogue.
#[derive(Debug, Clone, Default)]
pub struct UserData {
    /// The session's identifier.
    pub sid: String,
    /// The user's last message.
    pub msg_in: String,
    /// The reply to show.
    pub msg_out: String,
    /// A script for the page to run.
    pub script: String,
}

/// Where the dialogue stands between two messages.
#[derive(Clone, Copy, PartialEq, Eq, Structural, Debug)]
pub enum Stage {
    /// Nothing was said yet.
    Start,
    /// The name was asked for.
    AskedName,
    /// The mood was asked for, or the second plea was made.
    AskedMood,
    /// The first plea was made.
    Pleaded,
    /// Good bye was said.
    Done,
}

/// What `str::to_lowercase` returns for a string.
pub uninterp spec fn lowercase(s: Seq<char>) -> Seq<char>;

/// `str::to_lowercase`: the string in lower case, as [`lowercase`] names it.
#[verifier::external_body]
fn to_lowercase(s: &str) -> (r: String)
    ensures
        r@ == lowercase(s@),
{
    s.to_lowercase()
}

/// One dialogue.
pub struct Scenario {
    stage: Stage,
    uname: String,
}

/// The stage after a message whose lower-case form is `lowered`.
pub open spec fn next_stage(stage: Stage, lowered: Seq<char>) -> Stage {
    match stage {
        Stage::Start => Stage::AskedName,
        Stage::AskedName => Stage::AskedMood,
        Stage::AskedMood => if lowered == "ok"@ {
            Stage::Done
        } else {
            Stage::Pleaded
        },
        Stage::Pleaded => if lowered == "ok"@ {
            Stage::Done
        } else {
            Stage::AskedMood
        },
        Stage::Done => Stage::Done,
    }
}

/// The name that the dialogue addresses the user by after a message
/// `msg_in`: the message that answered the question for the name.
pub open spec fn next_name(stage: Stage, uname: Seq<char>, msg_in: Seq<char>) -> Seq<char> {
    if stage == Stage::AskedName {
        msg_in
    } else {
        uname
    }
}

/// The reply to a message, given the stage and the name after it.
pub open spec fn reply(from: Stage, to: Stage, uname: Seq<char>) -> Seq<char> {
    match to {
        Stage::AskedName => "Hi, what is you name ?"@,
        Stage::AskedMood => if from == Stage::AskedName {
            uname + ", how are you feeling ?"@
        } else {
            uname + ", millions of people are starving, maybe you're ok ?"@
        },
        Stage::Pleaded => uname + ", think carefully, maybe you're ok ?"@,
        _ => uname + ", good bye !"@,
    }
}

/// A dialogue at its start.
pub fn create_scenario() -> (s: Scenario)
    ensures
        s.stage() == Stage::Start,
        s.uname() == Seq::<char>::empty(),
{
    Scenario { stage: Stage::Start, uname: String::new() }
}

impl Scenario {
    /// Where the dialogue stands.
    pub closed spec fn stage(&self) -> Stage {
        self.stage
    }

    /// The user's name, empty until it was given.
    pub closed spec fn uname(&self) -> Seq<char> {
        self.uname@
    }

    /// Whether good bye was said.
    pub fn is_done(&self) -> (done: bool)
        ensures
            done == (self.stage() == Stage::Done),
    {
        self.stage == Stage::Done
    }

    /// Takes one step: reads `msg_in` and its lower-case form `lowered`,
    /// moves to the next stage, and returns the reply.
    pub fn advance(&mut self, msg_in: &str, lowered: &str) -> (msg_out: String)
        requires
            old(self).stage() != Stage::Done,
        ensures
            final(self).stage() == next_stage(old(self).stage(), lowered@),
            final(self).uname() == next_name(old(self).stage(), old(self).uname(), msg_in@),
            msg_out@ == reply(old(self).stage(), final(self).stage(), final(self).uname()),
    {
        let ok = "ok".to_owned();
        let calm = lowered.to_owned() == ok;
        match self.stage {
            Stage::Start => {
                self.stage = Stage::AskedName;
                "Hi, what is you name ?".to_owned()
            },
            Stage::AskedName => {
                self.uname = msg_in.to_owned();
                self.stage = Stage::AskedMood;
                self.uname.clone().concat(", how are you feeling ?")
            },
            Stage::AskedMood => {
                if calm {
                    self.stage = Stage::Done;
                    self.uname.clone().concat(", good bye !")
                } else {
                    self.stage = Stage::Pleaded;
                    self.uname.clone().concat(", think carefully, maybe you're ok ?")
                }
            },
            _ => {
                if calm {
                    self.stage = Stage::Done;
                    self.uname.clone().concat(", good bye !")
                } else {
                    self.stage = Stage::AskedMood;
                    self.uname.clone().concat(
                        ", millions of people are starving, maybe you're ok ?",
                    )
                }
            },
        }
    }

    /// Takes one step of the dialogue: reads `udata.msg_in`, writes the
    /// reply to `udata.msg_out`, and says whether the dialogue goes on. The
    /// other fields of `udata` stay as they are.
    pub fn resume(&mut self, udata: &mut UserData) -> (yielded: bool)
        requires
            old(self).stage() != Stage::Done,
        ensures
            final(self).stage() == next_stage(old(self).stage(), lowercase(old(udata).msg_in@)),
            final(self).uname() == next_name(
                old(self).stage(),
                old(self).uname(),
                old(udata).msg_in@,
            ),
            final(udata).msg_out@ == reply(
                old(self).stage(),
                final(self).stage(),
                final(self).uname(),
            ),
            final(udata).sid == old(udata).sid,
            final(udata).msg_in == old(udata).msg_in,
            final(udata).script == old(udata).script,
            yielded == (final(self).stage() != Stage::Done),
    {
        let lowered = to_lowercase(udata.msg_in.as_str());
        udata.msg_out = self.advance(udata.msg_in.as_str(), lowered.as_str());
        !self.is_done()
    }
}

} // verus!
