//! Outgoing instructions and their wire form.
use vstd::prelude::*;
use vstd::slice::slice_to_vec;
use vstd::string::StringSliceAdditionalSpecFns;
use crate::wire::{COMMAND_START, FRAME_END, decimal, signed_decimal, push_decimal, push_signed_decimal};

verus! {

/// An action token that can be framed: never empty, never holding the terminator.
pub open spec fn valid_action(action: Seq<u8>) -> bool {
    action.len() > 0 && !action.contains(FRAME_END)
}

/// The bytes of an outgoing frame:
/// `#` + decimal id + action + optional signed decimal parameter + `\r`.
pub open spec fn command_wire(id: u8, action: Seq<u8>, param: Option<i32>) -> Seq<u8> {
    seq![COMMAND_START] + decimal(id as nat) + action + match param {
        Some(v) => signed_decimal(v as int),
        None => Seq::empty(),
    } + seq![FRAME_END]
}

/// What a command holds: the servo id, the action token and its parameter.
pub struct CommandModel {
    pub id: u8,
    pub action: Seq<u8>,
    pub param: Option<i32>,
}

/// One instruction for one servo (or for all of them, by the broadcast id).
pub struct LssCommand {
    id: u8,
    action: Vec<u8>,
    param: Option<i32>,
}

impl View for LssCommand {
    type V = CommandModel;

    closed spec fn view(&self) -> CommandModel {
        CommandModel { id: self.id, action: self.action@, param: self.param }
    }
}

impl LssCommand {
    /// The command's frame, as `serialize` writes it.
    pub open spec fn wire(&self) -> Seq<u8> {
        command_wire(self@.id, self@.action, self@.param)
    }

    /// A command without parameter, such as `#4H\r`.
    pub fn simple(id: u8, action: &str) -> (r: LssCommand)
        requires
            valid_action(action.spec_bytes()),
        ensures
            r@ == (CommandModel { id, action: action.spec_bytes(), param: None }),
    {
        LssCommand { id, action: slice_to_vec(action.as_bytes()), param: None }
    }

    /// A command carrying an integer parameter, such as `#3D1800\r`.
    pub fn with_param(id: u8, action: &str, value: i32) -> (r: LssCommand)
        requires
            valid_action(action.spec_bytes()),
        ensures
            r@ == (CommandModel { id, action: action.spec_bytes(), param: Some(value) }),
    {
        LssCommand { id, action: slice_to_vec(action.as_bytes()), param: Some(value) }
    }

    /// The servo id the command is addressed to.
    pub fn id(&self) -> (r: u8)
        ensures
            r == self@.id,
    {
        self.id
    }

    /// The command's parameter, if it has one.
    pub fn param(&self) -> (r: Option<i32>)
        ensures
            r == self@.param,
    {
        self.param
    }

    /// The frame to put on the wire.
    pub fn serialize(&self) -> (r: Vec<u8>)
        ensures
            r@ == self.wire(),
    {
        let mut out: Vec<u8> = Vec::new();
        out.push(COMMAND_START);
        push_decimal(&mut out, self.id as u32);
        let mut i: usize = 0;
        let ghost head = out@;
        while i < self.action.len()
            invariant
                i <= self.action@.len(),
                out@ == head + self.action@.subrange(0, i as int),
            decreases self.action@.len() - i,
        {
            out.push(self.action[i]);
            assert(out@ =~= head + self.action@.subrange(0, i + 1));
            i = i + 1;
        }
        assert(self.action@.subrange(0, i as int) =~= self.action@);
        match self.param {
            Some(v) => push_signed_decimal(&mut out, v),
            None => {},
        }
        out.push(FRAME_END);
        assert(out@ =~= self.wire());
        out
    }
}

} // verus!
