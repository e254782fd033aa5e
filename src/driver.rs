//! Named servo operations over the framing layer.
use vstd::prelude::*;
use vstd::string::{StringSliceAdditionalSpecFns, is_ascii, is_ascii_spec_bytes};
use crate::codec::{has_frame, poll_outcome, poll_rest};
use crate::command::{LssCommand, command_wire, valid_action};
use crate::error::{LssError, ProtocolError};
use crate::framed::FramedDriver;
use crate::response::reply_fields;
use crate::transport::Transport;

verus! {

/// Baud rate of a servo out of the box.
pub const DEFAULT_BAUD_RATE: u32 = 115200;

/// Colors of the servo's LED.
#[derive(Debug, Clone, Copy, PartialEq, Eq, Structural)]
pub enum LedColor {
    Off,
    Red,
    Green,
    Blue,
    Yellow,
    Cyan,
    Magenta,
    White,
}

/// The number that selects a color on the wire.
pub open spec fn color_code(c: LedColor) -> i32 {
    match c {
        LedColor::Off => 0,
        LedColor::Red => 1,
        LedColor::Green => 2,
        LedColor::Blue => 3,
        LedColor::Yellow => 4,
        LedColor::Cyan => 5,
        LedColor::Magenta => 6,
        LedColor::White => 7,
    }
}

impl LedColor {
    /// The number that selects this color on the wire.
    pub fn code(&self) -> (r: i32)
        ensures
            r == color_code(*self),
    {
        match self {
            LedColor::Off => 0,
            LedColor::Red => 1,
            LedColor::Green => 2,
            LedColor::Blue => 3,
            LedColor::Yellow => 4,
            LedColor::Cyan => 5,
            LedColor::Magenta => 6,
            LedColor::White => 7,
        }
    }
}

/// The value a query returns for a reply whose fields are `fields`.
pub open spec fn reply_value(fields: Result<(u8, i32), ProtocolError>) -> Result<i32, LssError> {
    match fields {
        Ok((_, v)) => Ok(v),
        Err(e) => Err(LssError::Protocol(e)),
    }
}

/// A query's value cut to its low byte.
pub open spec fn low_byte(q: Result<i32, LssError>) -> Result<u8, LssError> {
    match q {
        Ok(v) => Ok(v as u8),
        Err(e) => Err(e),
    }
}

/// An action token written in the source: ASCII, non-empty, without `\r`.
proof fn lemma_token(s: &str)
    requires
        is_ascii(s),
        s@.len() > 0,
        forall|i: int| 0 <= i < s@.len() ==> s@[i] != '\r',
    ensures
        valid_action(s.spec_bytes()),
{
    broadcast use is_ascii_spec_bytes;

    assert forall|i: int| 0 <= i < s.spec_bytes().len() implies s.spec_bytes()[i] != 13u8 by {
        assert(s.spec_bytes()[i] == s@[i] as u8);
    }
    assert(!s.spec_bytes().contains(13u8));
}

/// Driver for the servos on one link.
pub struct LSSDriver<T: Transport> {
    driver: FramedDriver<T>,
}

impl<T: Transport> LSSDriver<T> {
    /// The framing layer underneath.
    pub closed spec fn framed(&self) -> FramedDriver<T> {
        self.driver
    }

    /// Since `earlier`, exactly the frame of `(id, action, param)` went out,
    /// and `r` is the transport's answer to that write: `Ok` whenever the
    /// transport accepts every write.
    pub open spec fn commanded(
        &self,
        earlier: &Self,
        id: u8,
        action: &str,
        param: Option<i32>,
        r: Result<(), LssError>,
    ) -> bool {
        &&& self.framed().sent_only(&earlier.framed(), command_wire(id, action.spec_bytes(), param))
        &&& r == Ok::<(), LssError>(()) || r == Err::<(), LssError>(LssError::Io)
        &&& r is Ok ==> self.framed().link().wrote(
            &earlier.framed().link(),
            command_wire(id, action.spec_bytes(), param),
        )
        &&& earlier.framed().link().accepts_all_writes() ==> r == Ok::<(), LssError>(())
        &&& earlier.framed().link().rejects_all_writes() ==> r == Err::<(), LssError>(LssError::Io)
        &&& self.framed().link().accepts_all_writes() == earlier.framed().link().accepts_all_writes()
        &&& self.framed().link().rejects_all_writes() == earlier.framed().link().rejects_all_writes()
        &&& self.framed().link().deliveries() == earlier.framed().link().deliveries()
    }

    /// Since `earlier`, the query `action` went to servo `id`, and `r` is what
    /// its reply holds; `r` is `Ok` only when a reply came.
    pub open spec fn answered(&self, earlier: &Self, id: u8, action: &str, r: Result<i32, LssError>) -> bool {
        &&& self.framed().sent_log() == earlier.framed().sent_log().push(
            command_wire(id, action.spec_bytes(), None),
        )
        &&& self.framed().extends(&earlier.framed())
        &&& forall|text: Seq<u8>| #[trigger]
            self.framed().replied(&earlier.framed(), text) ==> r == reply_value(
                reply_fields(text, action.spec_bytes()),
            )
        &&& r is Ok ==> exists|text: Seq<u8>| #[trigger]
            self.framed().replied(&earlier.framed(), text)
        &&& self.framed().link().accepts_all_writes() == earlier.framed().link().accepts_all_writes()
        &&& self.framed().link().rejects_all_writes() == earlier.framed().link().rejects_all_writes()
        &&& {
            let seen = earlier.framed().buffer() + self.framed().read_since(&earlier.framed());
            &&& r == Err::<i32, LssError>(LssError::Io) ==> self.framed().buffer() == seen && (
            self.framed().read_since(&earlier.framed()).len() == 0 || poll_outcome(seen) == Ok::<
                _,
                ProtocolError,
            >(None::<Seq<u8>>))
            &&& r != Err::<i32, LssError>(LssError::Io) ==> self.framed().buffer() == poll_rest(seen)
            &&& poll_outcome(seen) matches Err(e) ==> (r != Err::<i32, LssError>(LssError::Io) ==> r
                == Err::<i32, LssError>(LssError::Protocol(e)))
            &&& earlier.framed().link().accepts_all_writes() ==> (
            earlier.framed().settled() matches Some((s, k)) ==> (seen == s && r != Err::<
                i32,
                LssError,
            >(LssError::Io) && self.framed().link().deliveries()
                == earlier.framed().link().deliveries().skip(k as int) && (poll_outcome(s) matches Ok(
                Some(text),
            ) ==> r == reply_value(reply_fields(text, action.spec_bytes())))))
            &&& earlier.framed().link().rejects_all_writes() ==> (r == Err::<i32, LssError>(
                LssError::Io,
            ) && self.framed().received_log() == earlier.framed().received_log())
        }
    }

    /// Opens `port` at the default baud rate.
    pub fn new(port: &str) -> (r: Result<LSSDriver<T>, LssError>)
        ensures
            match r {
                Ok(d) => d.framed().buffer() == Seq::<u8>::empty() && d.framed().sent_log()
                    == Seq::<Seq<u8>>::empty() && d.framed().received_log() == Seq::<u8>::empty()
                    && d.framed().link().opened_on(port@, DEFAULT_BAUD_RATE),
                Err(e) => e == LssError::Io,
            },
            T::opens(port@, DEFAULT_BAUD_RATE) ==> r is Ok,
    {
        LSSDriver::with_baud_rate(port, DEFAULT_BAUD_RATE)
    }

    /// Opens `port` at `baud_rate`.
    pub fn with_baud_rate(port: &str, baud_rate: u32) -> (r: Result<LSSDriver<T>, LssError>)
        ensures
            match r {
                Ok(d) => d.framed().buffer() == Seq::<u8>::empty() && d.framed().sent_log()
                    == Seq::<Seq<u8>>::empty() && d.framed().received_log() == Seq::<u8>::empty()
                    && d.framed().link().opened_on(port@, baud_rate),
                Err(e) => e == LssError::Io,
            },
            T::opens(port@, baud_rate) ==> r is Ok,
    {
        match T::open(port, baud_rate) {
            Ok(transport) => Ok(LSSDriver { driver: FramedDriver::new(transport) }),
            Err(_) => Err(LssError::Io),
        }
    }

    /// A driver over a framing layer built elsewhere, over any transport.
    pub fn with_driver(driver: FramedDriver<T>) -> (r: LSSDriver<T>)
        ensures
            r.framed() == driver,
    {
        LSSDriver { driver }
    }

    /// The framing layer underneath, to look at.
    pub fn driver(&self) -> (r: &FramedDriver<T>)
        ensures
            *r == self.framed(),
    {
        &self.driver
    }

    /// Sends a command that expects no reply.
    fn command(&mut self, command: LssCommand) -> (r: Result<(), LssError>)
        ensures
            final(self).framed().sent_only(&old(self).framed(), command.wire()),
            r == Ok::<(), LssError>(()) || r == Err::<(), LssError>(LssError::Io),
            r is Ok ==> final(self).framed().link().wrote(&old(self).framed().link(), command.wire()),
            old(self).framed().link().accepts_all_writes() ==> r == Ok::<(), LssError>(()),
            old(self).framed().link().rejects_all_writes() ==> r == Err::<(), LssError>(LssError::Io),
            final(self).framed().link().accepts_all_writes() == old(self).framed().link().accepts_all_writes(),
            final(self).framed().link().rejects_all_writes() == old(self).framed().link().rejects_all_writes(),
            final(self).framed().link().deliveries() == old(self).framed().link().deliveries(),
    {
        self.driver.send(&command)
    }

    /// Sends the query `action` to servo `id` and returns the value of its reply.
    pub fn query(&mut self, id: u8, action: &str) -> (r: Result<i32, LssError>)
        requires
            valid_action(action.spec_bytes()),
        ensures
            final(self).answered(&*old(self), id, action, r),
    {
        let command = LssCommand::simple(id, action);
        let sent = self.driver.send(&command);
        let ghost mid = self.driver;
        match sent {
            Ok(()) => {},
            Err(e) => {
                proof {
                    assert(self.framed().read_since(&old(self).framed()) =~= Seq::<u8>::empty());
                    assert(self.framed().received_log().take(
                        old(self).framed().received_log().len() as int,
                    ) =~= old(self).framed().received_log());
                    let seen = old(self).framed().buffer();
                    assert(old(self).framed().buffer() + Seq::<u8>::empty() =~= seen);
                    if has_frame(seen) {
                        assert(poll_rest(seen).len() < seen.len());
                    }
                }
                return Err(e);
            },
        }
        let reply = self.driver.receive();
        proof {
            assert(self.framed().read_since(&old(self).framed()) == self.framed().read_since(&mid));
        }
        match reply {
            Ok(resp) => {
                let r = match resp.separate(action) {
                    Ok((_, v)) => Ok(v),
                    Err(e) => Err(e),
                };
                proof {
                    assert(self.framed().replied(&old(self).framed(), resp@));
                    assert(r == reply_value(reply_fields(resp@, action.spec_bytes())));
                }
                r
            },
            Err(e) => Err(e),
        }
    }

    /// Sets the LED color of servo `id`.
    pub fn set_color(&mut self, id: u8, color: LedColor) -> (r: Result<(), LssError>)
        ensures
            final(self).commanded(&*old(self), id, "LED", Some(color_code(color)), r),
    {
        proof {
            reveal_strlit("LED");
            lemma_token("LED");
        }
        self.command(LssCommand::with_param(id, "LED", color.code()))
    }

    /// Moves servo `id` to an absolute position in tenths of a degree;
    /// positions past one turn are allowed.
    pub fn move_to_position_tenths(&mut self, id: u8, tenths: i32) -> (r: Result<(), LssError>)
        ensures
            final(self).commanded(&*old(self), id, "D", Some(tenths), r),
    {
        proof {
            reveal_strlit("D");
            lemma_token("D");
        }
        self.command(LssCommand::with_param(id, "D", tenths))
    }

    /// Switches the motion profile of servo `id` on or off. Without it the
    /// servo follows position commands directly, at high speed.
    pub fn set_motion_profile(&mut self, id: u8, motion_profile: bool) -> (r: Result<(), LssError>)
        ensures
            final(self).commanded(&*old(self), id, "EM", Some(if motion_profile { 1i32 } else { 0i32 }), r),
    {
        proof {
            reveal_strlit("EM");
            lemma_token("EM");
        }
        self.command(LssCommand::with_param(id, "EM", if motion_profile { 1 } else { 0 }))
    }

    /// Sets the angular stiffness of servo `id` (-10 to 10).
    pub fn set_angular_stiffness(&mut self, id: u8, angular_stiffness: i32) -> (r: Result<(), LssError>)
        ensures
            final(self).commanded(&*old(self), id, "AS", Some(angular_stiffness), r),
    {
        proof {
            reveal_strlit("AS");
            lemma_token("AS");
        }
        self.command(LssCommand::with_param(id, "AS", angular_stiffness))
    }

    /// Sets the angular holding stiffness of servo `id` (-10 to 10).
    pub fn set_angular_holding(&mut self, id: u8, angular_holding: i32) -> (r: Result<(), LssError>)
        ensures
            final(self).commanded(&*old(self), id, "AH", Some(angular_holding), r),
    {
        proof {
            reveal_strlit("AH");
            lemma_token("AH");
        }
        self.command(LssCommand::with_param(id, "AH", angular_holding))
    }

    /// Sets the filter position count of servo `id` for this session; it
    /// acts only while the motion profile is off.
    pub fn set_filter_position_count(&mut self, id: u8, filter_position_count: u8) -> (r: Result<(), LssError>)
        ensures
            final(self).commanded(&*old(self), id, "FPC", Some(filter_position_count as i32), r),
    {
        proof {
            reveal_strlit("FPC");
            lemma_token("FPC");
        }
        self.command(LssCommand::with_param(id, "FPC", filter_position_count as i32))
    }

    /// Cuts power to the motor of servo `id`, so that it can be back driven.
    pub fn limp(&mut self, id: u8) -> (r: Result<(), LssError>)
        ensures
            final(self).commanded(&*old(self), id, "L", None, r),
    {
        proof {
            reveal_strlit("L");
            lemma_token("L");
        }
        self.command(LssCommand::simple(id, "L"))
    }

    /// Stops any motion of servo `id` and holds its position.
    pub fn halt_hold(&mut self, id: u8) -> (r: Result<(), LssError>)
        ensures
            final(self).commanded(&*old(self), id, "H", None, r),
    {
        proof {
            reveal_strlit("H");
            lemma_token("H");
        }
        self.command(LssCommand::simple(id, "H"))
    }

    /// Reads the position of servo `id`, in tenths of a degree.
    pub fn read_position_tenths(&mut self, id: u8) -> (r: Result<i32, LssError>)
        ensures
            final(self).answered(&*old(self), id, "QDT", r),
    {
        proof {
            reveal_strlit("QDT");
            lemma_token("QDT");
        }
        self.query(id, "QDT")
    }

    /// Reads the supply voltage of servo `id`, in millivolts.
    pub fn read_voltage_millivolts(&mut self, id: u8) -> (r: Result<i32, LssError>)
        ensures
            final(self).answered(&*old(self), id, "QV", r),
    {
        proof {
            reveal_strlit("QV");
            lemma_token("QV");
        }
        self.query(id, "QV")
    }

    /// Reads the temperature of servo `id`, in tenths of a degree Celsius.
    pub fn read_temperature_tenths(&mut self, id: u8) -> (r: Result<i32, LssError>)
        ensures
            final(self).answered(&*old(self), id, "QT", r),
    {
        proof {
            reveal_strlit("QT");
            lemma_token("QT");
        }
        self.query(id, "QT")
    }

    /// Reads the current drawn by servo `id`, in milliamps.
    pub fn read_current_milliamps(&mut self, id: u8) -> (r: Result<i32, LssError>)
        ensures
            final(self).answered(&*old(self), id, "QC", r),
    {
        proof {
            reveal_strlit("QC");
            lemma_token("QC");
        }
        self.query(id, "QC")
    }

    /// Reads the filter position count of servo `id`; the reply's value is
    /// cut to its low byte.
    pub fn read_filter_position_count(&mut self, id: u8) -> (r: Result<u8, LssError>)
        ensures
            exists|q: Result<i32, LssError>|
                final(self).answered(&*old(self), id, "QFPC", q) && r == low_byte(q),
    {
        proof {
            reveal_strlit("QFPC");
            lemma_token("QFPC");
        }
        let q = self.query(id, "QFPC");
        let r = match q {
            Ok(v) => Ok(v as u8),
            Err(e) => Err(e),
        };
        assert(self.answered(&*old(self), id, "QFPC", q) && r == low_byte(q));
        r
    }
}

} // verus!
