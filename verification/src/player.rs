//! Players, their roles, and what they have been told.

use crate::clock::{
    duration_as_nanos, duration_debug, duration_debug_text, duration_from_parts, duration_nanos, instant_now,
    max_duration_nanos, nanos_elapsed_since,
};
use crate::effects::Effect;
use crate::outgoing_websocket_messages::{OutgoingWebsocketMessage, RoleAssignment, SetRole};
use std::time::Duration;
use std::time::Instant;
use vstd::prelude::*;

verus! {

/// A player of the game.
#[derive(Debug)]
pub struct Player {
    pub role: Option<Role>,
    pub username: String,
    pub alive: bool,
    pub color: String,
    pub has_connected_previously: bool,
    pub id: u128,
    /// Whether a websocket to this player is currently open.
    pub websocket_open: bool,
    /// Every message ever sent to this player, oldest first.
    pub previously_sent_messages: Vec<OutgoingWebsocketMessage>,
}

#[derive(Debug, Clone, Copy, PartialEq)]
pub enum Role {
    Imposter(Imposter),
    Crewmate,
}

/// An imposter's kill cooldown: when they last killed (or got the role), and
/// how long they must wait between kills.
#[derive(Debug, Clone, Copy, PartialEq)]
pub struct Imposter {
    last_kill_time: Instant,
    kill_cooldown: Duration,
}

/// What other players may see of a player.
#[derive(PartialEq, Debug, Clone)]
pub struct PlayerSerializable {
    pub username: String,
    pub id: u128,
    pub color: String,
}

/// The effects of sending `msgs` to player `p`: one `Send` per message while
/// `p`'s websocket is open, none otherwise.
pub open spec fn deliveries_to(p: Player, msgs: Seq<OutgoingWebsocketMessage>) -> Seq<Effect> {
    if p.websocket_open {
        msgs.map_values(|m: OutgoingWebsocketMessage| Effect::Send { to: p.id, msg: m })
    } else {
        Seq::empty()
    }
}

/// `after` is `before` once `msgs` were sent to it: the same in everything
/// but its message history, which grew by `msgs`.
pub open spec fn received(before: Player, after: Player, msgs: Seq<OutgoingWebsocketMessage>) -> bool {
    &&& after.role == before.role
    &&& after.username == before.username
    &&& after.alive == before.alive
    &&& after.color == before.color
    &&& after.has_connected_previously == before.has_connected_previously
    &&& after.id == before.id
    &&& after.websocket_open == before.websocket_open
    &&& after.previously_sent_messages@ == before.previously_sent_messages@ + msgs
}

/// `a` and `b` are the same player, with the same history.
pub open spec fn same_player(a: Player, b: Player) -> bool {
    &&& a.role == b.role
    &&& a.username == b.username
    &&& a.alive == b.alive
    &&& a.color == b.color
    &&& a.has_connected_previously == b.has_connected_previously
    &&& a.id == b.id
    &&& a.websocket_open == b.websocket_open
    &&& a.previously_sent_messages@ == b.previously_sent_messages@
}

/// What `role` tells a player it is.
pub open spec fn assignment_of(role: Role) -> RoleAssignment {
    match role {
        Role::Imposter(_) => RoleAssignment::Imposter,
        Role::Crewmate => RoleAssignment::Crewmate,
    }
}

impl Player {
    pub open spec fn is_imposter(self) -> bool {
        self.role matches Some(Role::Imposter(_))
    }

    pub open spec fn is_crewmate(self) -> bool {
        self.role == Some(Role::Crewmate)
    }

    /// A new, living player in the lobby: no role, colour `#FFFFFF`, never
    /// connected, nothing sent yet.
    pub fn new(name: &str, id: u128) -> (r: Self)
        ensures
            r.role is None,
            r.username@ == name@,
            r.alive,
            r.color@ == "#FFFFFF"@,
            !r.has_connected_previously,
            r.id == id,
            !r.websocket_open,
            r.previously_sent_messages@.len() == 0,
    {
        Player {
            role: None,
            username: name.to_string(),
            alive: true,
            color: "#FFFFFF".to_string(),
            has_connected_previously: false,
            id,
            websocket_open: false,
            previously_sent_messages: vec![],
        }
    }

    /// Closes the player's websocket, if one is open.
    pub fn close_websocket(&mut self, out: &mut Vec<Effect>)
        ensures
            final(self).role == old(self).role,
            final(self).username == old(self).username,
            final(self).alive == old(self).alive,
            final(self).color == old(self).color,
            final(self).has_connected_previously == old(self).has_connected_previously,
            final(self).id == old(self).id,
            !final(self).websocket_open,
            final(self).previously_sent_messages == old(self).previously_sent_messages,
            final(out)@ == old(out)@ + if old(self).websocket_open {
                seq![Effect::CloseWebsocket { player: old(self).id }]
            } else {
                Seq::<Effect>::empty()
            },
    {
        if self.websocket_open {
            out.push(Effect::CloseWebsocket { player: self.id });
        }
        self.websocket_open = false;
    }

    /// Records that a websocket to the player is now open.
    pub fn set_websocket_address(&mut self)
        ensures
            final(self).role == old(self).role,
            final(self).username == old(self).username,
            final(self).alive == old(self).alive,
            final(self).color == old(self).color,
            final(self).has_connected_previously,
            final(self).id == old(self).id,
            final(self).websocket_open,
            final(self).previously_sent_messages == old(self).previously_sent_messages,
    {
        self.websocket_open = true;
        self.has_connected_previously = true;
    }

    /// Sends the player's whole message history again, over the open
    /// websocket if there is one.
    pub fn send_all_previous_messages(&self, out: &mut Vec<Effect>)
        ensures
            final(out)@ == old(out)@ + deliveries_to(*self, self.previously_sent_messages@),
    {
        let n = self.previously_sent_messages.len();
        let ghost start = out@;
        let ghost hist = self.previously_sent_messages@;
        let mut i: usize = 0;
        while i < n
            invariant
                n == hist.len(),
                hist == self.previously_sent_messages@,
                i <= n,
                out@ == start + deliveries_to(*self, hist.take(i as int)),
            decreases n - i,
        {
            let msg = self.previously_sent_messages[i].duplicate();
            self.send_websocket_message_internal(msg, out);
            proof {
                assert(hist.take(i as int).push(hist[i as int]) =~= hist.take(i + 1));
            }
            i = i + 1;
            assert(out@ =~= start + deliveries_to(*self, hist.take(i as int)));
        }
        assert(hist.take(n as int) =~= hist);
    }

    /// Sends `msg` to the player: it joins their history and goes over the
    /// open websocket if there is one.
    pub fn send_outgoing_message(&mut self, msg: OutgoingWebsocketMessage, out: &mut Vec<Effect>)
        ensures
            received(*old(self), *final(self), seq![msg]),
            final(out)@ == old(out)@ + deliveries_to(*old(self), seq![msg]),
    {
        let ghost before = self.previously_sent_messages@;
        self.previously_sent_messages.push(msg.duplicate());
        assert(self.previously_sent_messages@ =~= before + seq![msg]);
        self.send_websocket_message_internal(msg, out);
    }

    fn send_websocket_message_internal(&self, msg: OutgoingWebsocketMessage, out: &mut Vec<Effect>)
        ensures
            final(out)@ == old(out)@ + deliveries_to(*self, seq![msg]),
    {
        if self.websocket_open {
            out.push(Effect::Send { to: self.id, msg });
            assert(seq![msg].map_values(|m: OutgoingWebsocketMessage| Effect::Send { to: self.id, msg: m })
                =~= seq![Effect::Send { to: self.id, msg }]);
        } else {
            assert(out@ =~= old(out)@ + Seq::<Effect>::empty());
        }
    }

    /// Deals the player `role` and tells them about it. An imposter's kill
    /// cooldown is `kill_cooldown`, counted from the clock reading at the
    /// call.
    pub fn set_role(&mut self, role: RoleAssignment, kill_cooldown: Duration, out: &mut Vec<Effect>)
        ensures
            final(self).role matches Some(r) && assignment_of(r) == role,
            final(self).username == old(self).username,
            final(self).alive == old(self).alive,
            final(self).color == old(self).color,
            final(self).has_connected_previously == old(self).has_connected_previously,
            final(self).id == old(self).id,
            final(self).websocket_open == old(self).websocket_open,
            final(self).previously_sent_messages@ == old(self).previously_sent_messages@.push(
                OutgoingWebsocketMessage::PlayerRole(SetRole { role, id: old(self).id }),
            ),
            final(out)@ == old(out)@ + deliveries_to(
                *old(self),
                seq![OutgoingWebsocketMessage::PlayerRole(SetRole { role, id: old(self).id })],
            ),
            final(self).role matches Some(Role::Imposter(imp)) ==> imp.cooldown() == kill_cooldown,
    {
        let now = instant_now();
        self.set_role_at(role, kill_cooldown, now, out);
    }

    /// Deals the player `role` and tells them about it. An imposter's kill
    /// cooldown is `kill_cooldown`, counted from the clock reading `now`.
    pub fn set_role_at(&mut self, role: RoleAssignment, kill_cooldown: Duration, now: Instant, out: &mut Vec<Effect>)
        ensures
            final(self).role matches Some(r) && assignment_of(r) == role,
            final(self).username == old(self).username,
            final(self).alive == old(self).alive,
            final(self).color == old(self).color,
            final(self).has_connected_previously == old(self).has_connected_previously,
            final(self).id == old(self).id,
            final(self).websocket_open == old(self).websocket_open,
            final(self).previously_sent_messages@ == old(self).previously_sent_messages@.push(
                OutgoingWebsocketMessage::PlayerRole(SetRole { role, id: old(self).id }),
            ),
            final(out)@ == old(out)@ + deliveries_to(
                *old(self),
                seq![OutgoingWebsocketMessage::PlayerRole(SetRole { role, id: old(self).id })],
            ),
            final(self).role matches Some(Role::Imposter(imp)) ==> imp.cooldown() == kill_cooldown
                && imp.last_kill() == now,
    {
        self.role = Some(
            match role {
                RoleAssignment::Crewmate => Role::Crewmate,
                RoleAssignment::Imposter => Role::Imposter(Imposter::started_at(kill_cooldown, now)),
            },
        );
        let id = self.id;
        self.send_outgoing_message(OutgoingWebsocketMessage::PlayerRole(SetRole { role, id }), out);
    }

    /// A copy of the player, with an equal history.
    pub fn duplicate(&self) -> (r: Self)
        ensures
            same_player(r, *self),
    {
        let n = self.previously_sent_messages.len();
        let mut history: Vec<OutgoingWebsocketMessage> = Vec::new();
        let mut i: usize = 0;
        while i < n
            invariant
                n == self.previously_sent_messages@.len(),
                i <= n,
                history@ == self.previously_sent_messages@.take(i as int),
            decreases n - i,
        {
            history.push(self.previously_sent_messages[i].duplicate());
            i = i + 1;
            assert(history@ =~= self.previously_sent_messages@.take(i as int));
        }
        assert(history@ =~= self.previously_sent_messages@);
        Player {
            role: self.role,
            username: self.username.clone(),
            alive: self.alive,
            color: self.color.clone(),
            has_connected_previously: self.has_connected_previously,
            id: self.id,
            websocket_open: self.websocket_open,
            previously_sent_messages: history,
        }
    }

    pub fn set_color(&mut self, color: String)
        ensures
            final(self).role == old(self).role,
            final(self).username == old(self).username,
            final(self).alive == old(self).alive,
            final(self).color == color,
            final(self).has_connected_previously == old(self).has_connected_previously,
            final(self).id == old(self).id,
            final(self).websocket_open == old(self).websocket_open,
            final(self).previously_sent_messages == old(self).previously_sent_messages,
    {
        self.color = color;
    }
}

impl PlayerSerializable {
    /// What `user` may see of `player`: their name, identifier and colour.
    pub fn generate_for_user(player: &Player, user: &u128) -> (r: Self)
        ensures
            r == serializable(*player),
    {
        PlayerSerializable {
            username: player.username.clone(),
            id: player.id,
            color: player.color.clone(),
        }
    }

    /// A copy, equal to `self`.
    pub fn duplicate(&self) -> (r: Self)
        ensures
            r == *self,
    {
        PlayerSerializable { username: self.username.clone(), id: self.id, color: self.color.clone() }
    }
}

/// The shown part of `p`.
pub open spec fn serializable(p: Player) -> PlayerSerializable {
    PlayerSerializable { username: p.username, id: p.id, color: p.color }
}

impl Imposter {
    pub closed spec fn cooldown(self) -> Duration {
        self.kill_cooldown
    }

    /// When the imposter last killed, or got the role.
    pub closed spec fn last_kill(self) -> Instant {
        self.last_kill_time
    }

    /// An imposter whose cooldown of `kill_cooldown` starts at the clock
    /// reading of the call.
    pub fn new(kill_cooldown: Duration) -> (r: Self)
        ensures
            r.cooldown() == kill_cooldown,
    {
        Self::started_at(kill_cooldown, instant_now())
    }

    /// An imposter whose cooldown of `kill_cooldown` starts at `now`.
    pub fn started_at(kill_cooldown: Duration, now: Instant) -> (r: Self)
        ensures
            r.cooldown() == kill_cooldown,
            r.last_kill() == now,
    {
        Imposter { last_kill_time: now, kill_cooldown }
    }

    /// Nanoseconds since the last kill (or since the role was dealt). Which
    /// time comes back depends on when the call is made; it is the length of
    /// a `Duration`.
    pub fn nanos_since_last_kill(&self) -> (r: u128)
        ensures
            r < max_duration_nanos(),
    {
        nanos_elapsed_since(&self.last_kill_time)
    }

    /// The cooldown, in nanoseconds.
    pub fn cooldown_nanos(&self) -> (r: u128)
        ensures
            r == duration_as_nanos(self.cooldown()),
            r < max_duration_nanos(),
    {
        duration_nanos(&self.kill_cooldown)
    }

    /// Whether more time than the cooldown has passed since the last kill:
    /// for the time since the last kill that the clock gives at the call,
    /// whether it exceeds the cooldown (see `off_cooldown_at`).
    pub fn kill_is_off_cooldown(&self) -> (r: bool)
        ensures
            exists|elapsed: u128|
                elapsed < max_duration_nanos() && r == #[trigger] off_cooldown_after(self.cooldown(), elapsed as int),
    {
        let elapsed = self.nanos_since_last_kill();
        self.off_cooldown_at(elapsed)
    }

    /// Whether the cooldown has run out once `elapsed` nanoseconds have passed
    /// since the last kill.
    pub fn off_cooldown_at(&self, elapsed: u128) -> (r: bool)
        ensures
            r == off_cooldown_after(self.cooldown(), elapsed as int),
    {
        elapsed > self.cooldown_nanos()
    }

    /// How much of the cooldown is left, for the time since the last kill
    /// that the clock gives at the call (see `remaining_at`).
    pub fn cooldown_remaining(&self) -> (r: Option<Duration>)
        ensures
            exists|elapsed: u128|
                elapsed < max_duration_nanos() && #[trigger] remaining_after(self.cooldown(), elapsed as int, r),
    {
        let elapsed = self.nanos_since_last_kill();
        self.remaining_at(elapsed)
    }

    /// How much of the cooldown is left once `elapsed` nanoseconds have
    /// passed since the last kill: the cooldown less that time, or `None`
    /// once the cooldown has run out, where subtracting the elapsed time from
    /// the cooldown would underflow.
    pub fn remaining_at(&self, elapsed: u128) -> (r: Option<Duration>)
        requires
            elapsed < max_duration_nanos(),
        ensures
            remaining_after(self.cooldown(), elapsed as int, r),
    {
        let cooldown = self.cooldown_nanos();
        if elapsed <= cooldown {
            let (secs, nanos) = split_nanos(cooldown - elapsed);
            Some(duration_from_parts(secs, nanos))
        } else {
            None
        }
    }

    /// The same imposter with its cooldown starting again at the clock
    /// reading of the call.
    pub fn reset_kill_cooldown(&self) -> (r: Self)
        ensures
            r.cooldown() == self.cooldown(),
    {
        self.restarted_at(instant_now())
    }

    /// The same imposter with its cooldown starting again at `now`.
    pub fn restarted_at(&self, now: Instant) -> (r: Self)
        ensures
            r.cooldown() == self.cooldown(),
            r.last_kill() == now,
    {
        Imposter { last_kill_time: now, kill_cooldown: self.kill_cooldown }
    }
}

/// Whether a cooldown of `cooldown` has run out once `elapsed` nanoseconds
/// have passed: more time than the cooldown has passed.
pub open spec fn off_cooldown_after(cooldown: Duration, elapsed: int) -> bool {
    elapsed > duration_as_nanos(cooldown)
}

/// What is left of a cooldown of `cooldown` once `elapsed` nanoseconds have
/// passed: `None` when more time than the cooldown has passed, otherwise a
/// duration of the cooldown less the elapsed time.
pub open spec fn remaining_after(cooldown: Duration, elapsed: int, r: Option<Duration>) -> bool {
    match r {
        Some(d) => elapsed <= duration_as_nanos(cooldown) && duration_as_nanos(d) == duration_as_nanos(cooldown)
            - elapsed,
        None => elapsed > duration_as_nanos(cooldown),
    }
}

/// `total` nanoseconds as whole seconds and the nanoseconds left over.
pub fn split_nanos(total: u128) -> (r: (u64, u32))
    requires
        total < max_duration_nanos(),
    ensures
        r.1 < 1_000_000_000,
        r.0 as int * 1_000_000_000 + r.1 as int == total,
{
    let secs = total / 1_000_000_000;
    let nanos = total % 1_000_000_000;
    assert(secs < 18446744073709551616) by (nonlinear_arith)
        requires
            total < 18446744073709551616 * 1_000_000_000,
            secs == total / 1_000_000_000,
    ;
    (secs as u64, nanos as u32)
}

/// The message telling an imposter that their cooldown still runs for
/// `remaining` nanoseconds: the whole seconds and the nanoseconds left
/// over, as `Duration`'s `Debug` output shows them.
pub open spec fn cooldown_refusal(remaining: int) -> Seq<char> {
    "You are not off kill cooldown yet. Try again in "@ + duration_debug_text(
        (remaining / 1_000_000_000) as u64,
        (remaining % 1_000_000_000) as u32,
    )
}

/// The message telling an imposter that their cooldown still runs for
/// `remaining_nanos` nanoseconds.
pub fn cooldown_message_for(remaining_nanos: u128) -> (r: String)
    requires
        remaining_nanos < max_duration_nanos(),
    ensures
        r@ == cooldown_refusal(remaining_nanos as int),
{
    let (secs, nanos) = split_nanos(remaining_nanos);
    assert(secs == remaining_nanos / 1_000_000_000 && nanos == remaining_nanos % 1_000_000_000) by (nonlinear_arith)
        requires
            nanos < 1_000_000_000,
            secs * 1_000_000_000 + nanos == remaining_nanos,
    ;
    let mut text = "You are not off kill cooldown yet. Try again in ".to_string();
    let shown = duration_debug(secs, nanos);
    text.append(shown.as_str());
    text
}

} // verus!
