//! The game: its players, its phase, meetings, and every request it answers.
//! Each request is a transition of the game's state that appends the
//! messages and connection actions it causes to an effect list.

use crate::effects::Effect;
use crate::incoming_websocket_messages::IncomingWebsocketMessage;
use crate::internal_messages::{
    EndVoting, IncomingMessageInternal, GetNextUUID, GetPlayerColor, HasGameStarted, PlayerDisconnected, PlayerExists,
    RegisterPlayer, RegisterPlayerWebsocket, ResetGame, StartGame, StartMeeting,
};
pub use crate::meeting::Meeting;
use crate::meeting::ejected;
use crate::outgoing_websocket_messages::{
    BodyReported, EmergencyMeetingCalled, GameState, GameStateEnum, OutgoingWebsocketMessage,
    PlayerConnectionStatus, PlayerDied, PlayerStatus,
    RoleAssignment, SetRole, VotingResults, Winner,
};
use crate::clock::{duration_as_nanos, instant_now, max_duration_nanos};
use crate::player::{
    assignment_of, cooldown_message_for, cooldown_refusal, deliveries_to, received, same_player, serializable, Player, PlayerSerializable,
    Role,
};
use crate::rng::{draw_below, draw_bytes, seeded_rng, uuid_from_bytes};
use rand_pcg::Pcg32;
use std::time::Duration;
use std::time::Instant;
use vstd::prelude::*;

verus! {

/// How long a meeting's voting lasts, in seconds.
pub const VOTING_TIME_SECS: u64 = 60;

/// The game.
#[derive(Debug)]
pub struct Game {
    state: GameStateEnum,
    /// The players keyed by identifier: each identifier at most once, in
    /// increasing order, so that every walk over them goes in identifier
    /// order. A vector rather than a `BTreeMap`, because every transition
    /// updates players in place (one of them, or all in turn), and vstd
    /// specifies no in-place access (`get_mut`, `iter_mut`) to a `BTreeMap`'s
    /// values: through the `insert` and `remove` it does specify, every
    /// message to every player would take that player out of the map and put
    /// them back.
    players: Vec<Player>,
    kill_cooldown: Duration,
    pub rng: Pcg32,
    meeting: Option<Meeting>,
}

#[derive(Debug)]
pub struct GameSettings {
    pub kill_cooldown: Duration,
}

/// Why a request cannot be answered: the request would have crashed the game.
#[derive(Debug, Clone, Copy, PartialEq, Eq)]
pub enum GameFault {
    /// No player has this identifier.
    UnknownPlayer(u128),
    /// This player has not been dealt a role.
    RoleNotAssigned(u128),
    /// A game cannot start without players.
    NoPlayers,
    /// A meeting cannot count more than `u32::MAX` ballots.
    TooManyVotes,
}

/// The players are ordered by identifier, so no identifier occurs twice.
pub open spec fn ordered_by_id(ps: Seq<Player>) -> bool {
    forall|i: int, j: int| 0 <= i < j < ps.len() ==> ps[i].id < ps[j].id
}

pub open spec fn has_player(ps: Seq<Player>, id: u128) -> bool {
    exists|i: int| 0 <= i < ps.len() && ps[i].id == id
}

/// The position of the player with identifier `id`.
pub open spec fn index_of(ps: Seq<Player>, id: u128) -> int {
    choose|i: int| 0 <= i < ps.len() && ps[i].id == id
}

/// The player with identifier `id`.
pub open spec fn player_with(ps: Seq<Player>, id: u128) -> Player {
    ps[index_of(ps, id)]
}

/// Every player has been dealt a role.
pub open spec fn roles_assigned(ps: Seq<Player>) -> bool {
    forall|i: int| 0 <= i < ps.len() ==> (#[trigger] ps[i]).role is Some
}

pub open spec fn is_alive() -> spec_fn(Player) -> bool {
    |p: Player| p.alive
}

pub open spec fn is_alive_crewmate() -> spec_fn(Player) -> bool {
    |p: Player| p.alive && p.is_crewmate()
}

pub open spec fn is_alive_imposter() -> spec_fn(Player) -> bool {
    |p: Player| p.alive && p.is_imposter()
}

pub open spec fn is_imposter() -> spec_fn(Player) -> bool {
    |p: Player| p.is_imposter()
}

/// The winner, from the numbers of living crewmates and imposters (each
/// kept, as the game counts them, in a `u32`).
pub open spec fn winner(ps: Seq<Player>) -> Option<Winner> {
    if ps.filter(is_alive_crewmate()).len() as u32 == 0 {
        Some(Winner::Imposters)
    } else if ps.filter(is_alive_imposter()).len() as u32 == 0 {
        Some(Winner::Crewmates)
    } else {
        None
    }
}

/// The message that tells players how the game goes on.
pub open spec fn next_state_message(ps: Seq<Player>) -> OutgoingWebsocketMessage {
    match winner(ps) {
        Some(w) => OutgoingWebsocketMessage::GameOver(w),
        None => OutgoingWebsocketMessage::GameState(GameState { state: GameStateEnum::InGame }),
    }
}

/// The effects of sending `m` to every player of `ps`, in order.
pub open spec fn broadcast_effects(ps: Seq<Player>, m: OutgoingWebsocketMessage) -> Seq<Effect>
    decreases ps.len(),
{
    if ps.len() == 0 {
        Seq::empty()
    } else {
        broadcast_effects(ps.drop_last(), m) + deliveries_to(ps.last(), seq![m])
    }
}

/// Every player of `before` received `msgs` and nothing else changed.
pub open spec fn all_received(
    before: Seq<Player>,
    after: Seq<Player>,
    msgs: Seq<OutgoingWebsocketMessage>,
) -> bool {
    &&& after.len() == before.len()
    &&& forall|i: int| 0 <= i < before.len() ==> received(before[i], #[trigger] after[i], msgs)
}

/// The player at position `k` received `msgs` and nothing else changed.
pub open spec fn one_received(
    before: Seq<Player>,
    after: Seq<Player>,
    k: int,
    msgs: Seq<OutgoingWebsocketMessage>,
) -> bool {
    &&& after.len() == before.len()
    &&& received(before[k], after[k], msgs)
    &&& forall|i: int| 0 <= i < before.len() && i != k ==> after[i] == before[i]
}

/// `a` and `b` hold the same players, by identifier and open websocket.
pub open spec fn same_links(a: Seq<Player>, b: Seq<Player>) -> bool {
    &&& a.len() == b.len()
    &&& forall|i: int|
        0 <= i < a.len() ==> (#[trigger] a[i]).id == b[i].id && a[i].websocket_open == b[i].websocket_open
}

/// Broadcasting to the same players over the same websockets has the same
/// effects: deliveries depend only on identifiers and open websockets.
pub proof fn lemma_broadcast_effects_stable(a: Seq<Player>, b: Seq<Player>, m: OutgoingWebsocketMessage)
    requires
        same_links(a, b),
    ensures
        broadcast_effects(b, m) == broadcast_effects(a, m),
    decreases a.len(),
{
    if a.len() > 0 {
        assert(same_links(a.drop_last(), b.drop_last())) by {
            assert forall|i: int| 0 <= i < a.drop_last().len() implies (#[trigger] a.drop_last()[i]).id
                == b.drop_last()[i].id && a.drop_last()[i].websocket_open == b.drop_last()[i].websocket_open by {
                assert(a[i].id == b[i].id);
            }
        }
        lemma_broadcast_effects_stable(a.drop_last(), b.drop_last(), m);
        assert(a[a.len() - 1].id == b[b.len() - 1].id);
        assert(deliveries_to(b.last(), seq![m]) == deliveries_to(a.last(), seq![m]));
    }
}

/// Players who received messages keep their identifiers and websockets.
pub proof fn lemma_received_same_links(a: Seq<Player>, b: Seq<Player>, msgs: Seq<OutgoingWebsocketMessage>)
    requires
        all_received(a, b, msgs),
    ensures
        same_links(a, b),
{
    assert forall|i: int| 0 <= i < a.len() implies (#[trigger] a[i]).id == b[i].id && a[i].websocket_open
        == b[i].websocket_open by {
        assert(received(a[i], b[i], msgs));
    }
}

/// Receiving `m1` and then `m2` is receiving `m1 + m2`.
pub proof fn lemma_all_received_chain(
    a: Seq<Player>,
    b: Seq<Player>,
    c: Seq<Player>,
    m1: Seq<OutgoingWebsocketMessage>,
    m2: Seq<OutgoingWebsocketMessage>,
)
    requires
        all_received(a, b, m1),
        all_received(b, c, m2),
    ensures
        all_received(a, c, m1 + m2),
{
    assert forall|i: int| 0 <= i < a.len() implies received(a[i], #[trigger] c[i], m1 + m2) by {
        assert(received(a[i], b[i], m1));
        assert(received(b[i], c[i], m2));
        assert(c[i].previously_sent_messages@ =~= a[i].previously_sent_messages@ + (m1 + m2));
    }
}

/// Receiving messages keeps the players' identifiers, so their order too.
pub proof fn lemma_all_received_ordered(
    a: Seq<Player>,
    b: Seq<Player>,
    msgs: Seq<OutgoingWebsocketMessage>,
)
    requires
        all_received(a, b, msgs),
    ensures
        ordered_by_id(a) ==> ordered_by_id(b),
        forall|id: u128| has_player(a, id) == has_player(b, id),
{
    assert forall|i: int| 0 <= i < a.len() implies b[i].id == a[i].id by {
        assert(received(a[i], b[i], msgs));
    }
    assert forall|id: u128| has_player(a, id) == has_player(b, id) by {
        if has_player(a, id) {
            let i = choose|i: int| 0 <= i < a.len() && a[i].id == id;
            assert(b[i].id == id);
        }
        if has_player(b, id) {
            let i = choose|i: int| 0 <= i < b.len() && b[i].id == id;
            assert(a[i].id == id);
        }
    }
}

/// In players ordered by identifier, the player with identifier `id` is at
/// one position only.
pub proof fn lemma_index_of(ps: Seq<Player>, i: int, id: u128)
    requires
        ordered_by_id(ps),
        0 <= i < ps.len(),
        ps[i].id == id,
    ensures
        has_player(ps, id),
        index_of(ps, id) == i,
{
    let j = index_of(ps, id);
    if j < i {
        assert(ps[j].id < ps[i].id);
    } else if i < j {
        assert(ps[i].id < ps[j].id);
    }
}

/// `p` with its `alive` flag set to `alive`.
pub open spec fn with_alive(p: Player, alive: bool) -> Player {
    Player { alive, ..p }
}

/// The players once the player `voted` (if any) is dead.
pub open spec fn eject(ps: Seq<Player>, voted: Option<u128>) -> Seq<Player> {
    ps.map_values(|p: Player| if voted == Some(p.id) { with_alive(p, false) } else { p })
}

/// Two player lists that agree, position by position, on a predicate have
/// filters of the same length.
pub proof fn lemma_filter_len_agrees(a: Seq<Player>, b: Seq<Player>, f: spec_fn(Player) -> bool)
    requires
        a.len() == b.len(),
        forall|i: int| 0 <= i < a.len() ==> f(a[i]) == f(b[i]),
    ensures
        a.filter(f).len() == b.filter(f).len(),
    decreases a.len(),
{
    reveal(Seq::filter);
    if a.len() > 0 {
        lemma_filter_len_agrees(a.drop_last(), b.drop_last(), f);
        assert(f(a[a.len() - 1]) == f(b[b.len() - 1]));
    }
}

/// Players that agree on who is alive and on their roles have the same winner.
pub proof fn lemma_winner_agrees(a: Seq<Player>, b: Seq<Player>)
    requires
        a.len() == b.len(),
        forall|i: int| 0 <= i < a.len() ==> a[i].alive == b[i].alive && a[i].role == b[i].role,
    ensures
        winner(a) == winner(b),
        next_state_message(a) == next_state_message(b),
{
    lemma_filter_len_agrees(a, b, is_alive_crewmate());
    lemma_filter_len_agrees(a, b, is_alive_imposter());
}

/// The players `fin` and effects `o1` follow from the players `ps` and
/// effects `o0` when meeting `m` closes: everybody learns whom it voted out,
/// that player dies, and everybody learns how the game goes on.
pub open spec fn meeting_closed(
    ps: Seq<Player>,
    m: Meeting,
    fin: Seq<Player>,
    o0: Seq<Effect>,
    o1: Seq<Effect>,
) -> bool {
    let voted = ejected(m.votes(), m.alive_count());
    let vr = OutgoingWebsocketMessage::VotingResults(VotingResults { ejected_player: voted });
    &&& all_received(eject(ps, voted), fin, seq![vr, next_state_message(eject(ps, voted))])
    &&& o1 == o0 + broadcast_effects(ps, vr) + broadcast_effects(ps, next_state_message(eject(ps, voted)))
}

/// A meeting's end cannot be handled: the player voted out is unknown, or a
/// player has no role to count.
pub open spec fn end_meeting_fault(ps: Seq<Player>, m: Meeting) -> bool {
    ||| (ejected(m.votes(), m.alive_count()) matches Some(v) && !has_player(ps, v))
    ||| !roles_assigned(ps)
}

/// The statuses of everybody but `id`, in order, as `id` first learns them.
pub open spec fn others_status(ps: Seq<Player>, id: u128) -> Seq<OutgoingWebsocketMessage>
    decreases ps.len(),
{
    if ps.len() == 0 {
        Seq::empty()
    } else {
        others_status(ps.drop_last(), id) + if ps.last().id != id {
            seq![
                OutgoingWebsocketMessage::PlayerStatus(
                    PlayerStatus {
                        player: serializable(ps.last()),
                        status: PlayerConnectionStatus::Existing,
                    },
                ),
            ]
        } else {
            Seq::empty()
        }
    }
}

/// The message naming `q` as an imposter.
pub open spec fn imposter_role_msg() -> spec_fn(Player) -> OutgoingWebsocketMessage {
    |q: Player| OutgoingWebsocketMessage::PlayerRole(SetRole { role: RoleAssignment::Imposter, id: q.id })
}

/// One role message per imposter, in order.
pub open spec fn imposter_role_msgs(ps: Seq<Player>) -> Seq<OutgoingWebsocketMessage> {
    ps.filter(is_imposter()).map_values(imposter_role_msg())
}

/// What the player `id` learns about roles: their own, and, for an
/// imposter, who all the imposters are. Nothing before roles are dealt.
pub open spec fn roles_msgs(ps: Seq<Player>, id: u128) -> Seq<OutgoingWebsocketMessage> {
    let p = player_with(ps, id);
    match p.role {
        None => Seq::empty(),
        Some(r) => seq![
            OutgoingWebsocketMessage::PlayerRole(SetRole { role: assignment_of(r), id: p.id }),
        ] + if p.is_imposter() {
            imposter_role_msgs(ps)
        } else {
            Seq::empty()
        },
    }
}

/// What the player `id` is told on connecting: everybody else's status,
/// the roles they may know, and the game's phase.
pub open spec fn game_status_msgs(ps: Seq<Player>, id: u128, state: GameStateEnum) -> Seq<
    OutgoingWebsocketMessage,
> {
    others_status(ps, id) + roles_msgs(ps, id) + seq![
        OutgoingWebsocketMessage::GameState(GameState { state }),
    ]
}

/// The message telling everybody that `p` has status `status`.
pub open spec fn status_msg(p: Player, status: PlayerConnectionStatus) -> OutgoingWebsocketMessage {
    OutgoingWebsocketMessage::PlayerStatus(PlayerStatus { player: serializable(p), status })
}

/// Players that agree, position by position, on roles and identifiers have
/// the same imposters.
pub proof fn lemma_imposter_role_msgs_agree(a: Seq<Player>, b: Seq<Player>)
    requires
        a.len() == b.len(),
        forall|i: int| 0 <= i < a.len() ==> a[i].role == b[i].role && a[i].id == b[i].id,
    ensures
        imposter_role_msgs(a) == imposter_role_msgs(b),
    decreases a.len(),
{
    reveal(Seq::filter);
    let g = imposter_role_msg();
    if a.len() > 0 {
        lemma_imposter_role_msgs_agree(a.drop_last(), b.drop_last());
        let fa = a.drop_last().filter(is_imposter());
        let fb = b.drop_last().filter(is_imposter());
        assert(a[a.len() - 1].role == b[b.len() - 1].role);
        if is_imposter()(a.last()) {
            assert(fa.push(a.last()).map_values(g) =~= fa.map_values(g).push(g(a.last())));
            assert(fb.push(b.last()).map_values(g) =~= fb.map_values(g).push(g(b.last())));
        }
    } else {
        assert(imposter_role_msgs(a) =~= imposter_role_msgs(b));
    }
}

/// The other players' statuses depend only on their names, identifiers and
/// colours.
pub proof fn lemma_others_status_agree(a: Seq<Player>, b: Seq<Player>, id: u128)
    requires
        a.len() == b.len(),
        forall|i: int| 0 <= i < a.len() ==> serializable(a[i]) == serializable(b[i]),
    ensures
        others_status(a, id) == others_status(b, id),
    decreases a.len(),
{
    if a.len() > 0 {
        lemma_others_status_agree(a.drop_last(), b.drop_last(), id);
        assert(serializable(a[a.len() - 1]) == serializable(b[b.len() - 1]));
    }
}

/// Receiving `m1` and then `m2` at the same position is receiving `m1 + m2`.
pub proof fn lemma_one_received_chain(
    a: Seq<Player>,
    b: Seq<Player>,
    c: Seq<Player>,
    k: int,
    m1: Seq<OutgoingWebsocketMessage>,
    m2: Seq<OutgoingWebsocketMessage>,
)
    requires
        0 <= k < a.len(),
        one_received(a, b, k, m1),
        one_received(b, c, k, m2),
    ensures
        one_received(a, c, k, m1 + m2),
{
    assert(c[k].previously_sent_messages@ =~= a[k].previously_sent_messages@ + (m1 + m2));
}

/// Deliveries of `m1` then `m2` are the deliveries of `m1 + m2`.
pub proof fn lemma_deliveries_concat(
    p: Player,
    m1: Seq<OutgoingWebsocketMessage>,
    m2: Seq<OutgoingWebsocketMessage>,
)
    ensures
        deliveries_to(p, m1) + deliveries_to(p, m2) == deliveries_to(p, m1 + m2),
{
    let f = |m: OutgoingWebsocketMessage| Effect::Send { to: p.id, msg: m };
    assert((m1 + m2).map_values(f) =~= m1.map_values(f) + m2.map_values(f));
    assert(Seq::<Effect>::empty() + Seq::<Effect>::empty() =~= Seq::<Effect>::empty());
}

/// One player receiving messages keeps everybody's identifier, role and
/// shown status, and the players' order.
pub proof fn lemma_one_received_keeps(a: Seq<Player>, b: Seq<Player>, k: int, msgs: Seq<OutgoingWebsocketMessage>)
    requires
        0 <= k < a.len(),
        one_received(a, b, k, msgs),
    ensures
        ordered_by_id(a) ==> ordered_by_id(b),
        forall|i: int| 0 <= i < a.len() ==> (#[trigger] b[i]).id == a[i].id && b[i].role == a[i].role
            && b[i].websocket_open == a[i].websocket_open && b[i].alive == a[i].alive && serializable(b[i])
            == serializable(a[i]),
        forall|id: u128| has_player(a, id) == has_player(b, id),
        same_links(a, b),
{
    assert(received(a[k], b[k], msgs));
    assert forall|id: u128| has_player(a, id) == has_player(b, id) by {
        if has_player(a, id) {
            let i = choose|i: int| 0 <= i < a.len() && a[i].id == id;
            assert(b[i].id == id);
        }
        if has_player(b, id) {
            let i = choose|i: int| 0 <= i < b.len() && b[i].id == id;
            assert(a[i].id == id);
        }
    }
}

/// `p` once a websocket to them is open.
pub open spec fn connected(p: Player) -> Player {
    Player { websocket_open: true, has_connected_previously: true, ..p }
}

/// `p` once their websocket is closed.
pub open spec fn disconnected(p: Player) -> Player {
    Player { websocket_open: false, ..p }
}

/// The status a player connects with: `Reconnected` if a websocket to them
/// was open before, `New` otherwise.
pub open spec fn connection_status(p: Player) -> PlayerConnectionStatus {
    if p.has_connected_previously {
        PlayerConnectionStatus::Reconnected
    } else {
        PlayerConnectionStatus::New
    }
}

/// `after` holds the players of `before` and `p`, which replaces any player
/// of `before` with its identifier; everybody else is unchanged.
pub open spec fn inserted(before: Seq<Player>, after: Seq<Player>, p: Player) -> bool {
    &&& ordered_by_id(after)
    &&& forall|o: u128| #[trigger] has_player(after, o) == (o == p.id || has_player(before, o))
    &&& forall|o: u128|
        o != p.id && has_player(before, o) ==> #[trigger] player_with(after, o) == player_with(before, o)
    &&& player_with(after, p.id) == p
    &&& after.len() == before.len() + if has_player(before, p.id) {
        0int
    } else {
        1int
    }
}

/// What the player `initiator` asking to kill `target` would crash on, given
/// whether the initiator's kill cooldown has run out: an unknown initiator,
/// an initiator without a role, and, for an imposter off cooldown, an
/// unknown target or a target without a role.
pub open spec fn kill_fault(ps: Seq<Player>, initiator: u128, target: u128, off_cooldown: bool) -> Option<
    GameFault,
> {
    if !has_player(ps, initiator) {
        Some(GameFault::UnknownPlayer(initiator))
    } else if player_with(ps, initiator).role is None {
        Some(GameFault::RoleNotAssigned(initiator))
    } else if player_with(ps, initiator).is_imposter() && off_cooldown {
        if !has_player(ps, target) {
            Some(GameFault::UnknownPlayer(target))
        } else if player_with(ps, target).role is None {
            Some(GameFault::RoleNotAssigned(target))
        } else {
            None
        }
    } else {
        None
    }
}

/// Why the kill is refused, if it is, when `elapsed` nanoseconds have passed
/// since the initiator's last kill and their cooldown is `cooldown`
/// nanoseconds: only imposters kill, only once their cooldown has run out,
/// and only living crewmates.
pub open spec fn kill_refusal(
    ps: Seq<Player>,
    initiator: u128,
    target: u128,
    elapsed: int,
    cooldown: int,
) -> Option<Seq<char>> {
    if !player_with(ps, initiator).is_imposter() {
        Some("Good try, but you can only kill people if you are an imposter!"@)
    } else if elapsed <= cooldown {
        Some(cooldown_refusal(cooldown - elapsed))
    } else if player_with(ps, target).is_crewmate() {
        if !player_with(ps, target).alive {
            Some(
                "You cannot kill "@ + player_with(ps, target).username@
                    + " since they are already dead"@,
            )
        } else {
            None
        }
    } else {
        Some("You cannot kill a fellow imposter, silly"@)
    }
}

/// `cooldown` is the initiator's own kill cooldown, in nanoseconds, when they
/// are an imposter.
pub open spec fn initiator_cooldown(ps: Seq<Player>, initiator: u128, cooldown: int) -> bool {
    has_player(ps, initiator) ==> match player_with(ps, initiator).role {
        Some(Role::Imposter(x)) => cooldown == duration_as_nanos(x.cooldown()),
        _ => true,
    }
}

/// The answer to a kill request, for a given elapsed time and cooldown.
pub open spec fn kill_verdict(
    ps: Seq<Player>,
    initiator: u128,
    target: u128,
    elapsed: int,
    cooldown: int,
    r: Result<Option<String>, GameFault>,
) -> bool {
    match r {
        Err(f) => kill_fault(ps, initiator, target, elapsed > cooldown) == Some(f),
        Ok(refusal) => {
            &&& kill_fault(ps, initiator, target, elapsed > cooldown) is None
            &&& match refusal {
                Some(text) => kill_refusal(ps, initiator, target, elapsed, cooldown) == Some(text@),
                None => kill_refusal(ps, initiator, target, elapsed, cooldown) is None,
            }
        },
    }
}

/// Everything but the players stays as it was.
pub open spec fn same_setting(g0: Game, g1: Game) -> bool {
    &&& g1.state() == g0.state()
    &&& g1.meeting() == g0.meeting()
    &&& g1.kill_cooldown() == g0.kill_cooldown()
    &&& g1.rng_state() == g0.rng_state()
}

/// `g1` and effects `o1` follow from `g0` and `o0` when `initiator` asks to
/// kill `target` with `elapsed` nanoseconds since their last kill and a
/// cooldown of `cooldown` nanoseconds (and nothing crashes): a refusal goes
/// back to the initiator; otherwise the imposter's cooldown starts again, they
/// learn the kill succeeded, and the target dies and learns who killed them.
pub open spec fn kill_done(
    g0: Game,
    g1: Game,
    o0: Seq<Effect>,
    o1: Seq<Effect>,
    initiator: u128,
    target: u128,
    elapsed: int,
    cooldown: int,
) -> bool {
    let ps = g0.players();
    let fin = g1.players();
    &&& same_setting(g0, g1)
    &&& match kill_refusal(ps, initiator, target, elapsed, cooldown) {
        Some(text) => exists|s: String|
            s@ == text && one_received(
                ps,
                fin,
                index_of(ps, initiator),
                seq![OutgoingWebsocketMessage::InvalidAction(s)],
            ) && o1 == o0 + deliveries_to(
                player_with(ps, initiator),
                seq![OutgoingWebsocketMessage::InvalidAction(s)],
            ),
        None => {
            let ki = index_of(ps, initiator);
            let kt = index_of(ps, target);
            let sk = OutgoingWebsocketMessage::SuccessfulKill(target);
            let pd = OutgoingWebsocketMessage::PlayerDied(PlayerDied { killer: initiator });
            &&& fin.len() == ps.len()
            &&& ki != kt
            &&& fin[ki].role matches Some(Role::Imposter(x)) && ps[ki].role matches Some(Role::Imposter(y))
                && x.cooldown() == y.cooldown()
            &&& received(Player { role: fin[ki].role, ..ps[ki] }, fin[ki], seq![sk])
            &&& received(with_alive(ps[kt], false), fin[kt], seq![pd])
            &&& forall|i: int| 0 <= i < ps.len() && i != ki && i != kt ==> fin[i] == ps[i]
            &&& o1 == o0 + deliveries_to(ps[ki], seq![sk]) + deliveries_to(ps[kt], seq![pd])
        },
    }
}

/// The players `fin` and effects `o1` follow from the players `ps` and
/// effects `o0` when the imposter `initiator` kills `target` at the clock
/// reading `now`: the imposter's cooldown starts again at `now` and they
/// learn the kill succeeded; the target dies and learns who killed them;
/// nobody else changes.
pub open spec fn kill_applied(
    ps: Seq<Player>,
    fin: Seq<Player>,
    o0: Seq<Effect>,
    o1: Seq<Effect>,
    initiator: u128,
    target: u128,
    now: Instant,
) -> bool {
    let ki = index_of(ps, initiator);
    let kt = index_of(ps, target);
    let sk = OutgoingWebsocketMessage::SuccessfulKill(target);
    let pd = OutgoingWebsocketMessage::PlayerDied(PlayerDied { killer: initiator });
    &&& fin.len() == ps.len()
    &&& ki != kt
    &&& fin[ki].role matches Some(Role::Imposter(x)) && ps[ki].role matches Some(Role::Imposter(y))
        && x.cooldown() == y.cooldown() && x.last_kill() == now
    &&& received(Player { role: fin[ki].role, ..ps[ki] }, fin[ki], seq![sk])
    &&& received(with_alive(ps[kt], false), fin[kt], seq![pd])
    &&& forall|i: int| 0 <= i < ps.len() && i != ki && i != kt ==> fin[i] == ps[i]
    &&& o1 == o0 + deliveries_to(ps[ki], seq![sk]) + deliveries_to(ps[kt], seq![pd])
}

/// The outcome of a kill request: a fault that changes nothing, or the
/// kill's transition.
pub open spec fn kill_outcome(
    g0: Game,
    g1: Game,
    o0: Seq<Effect>,
    o1: Seq<Effect>,
    initiator: u128,
    target: u128,
    elapsed: int,
    cooldown: int,
    r: Result<(), GameFault>,
) -> bool {
    &&& cooldown < max_duration_nanos()
    &&& initiator_cooldown(g0.players(), initiator, cooldown)
    &&& match r {
        Err(f) => kill_fault(g0.players(), initiator, target, elapsed > cooldown) == Some(f) && g1 == g0
            && o1 == o0,
        Ok(_) => kill_fault(g0.players(), initiator, target, elapsed > cooldown) is None && kill_done(
            g0,
            g1,
            o0,
            o1,
            initiator,
            target,
            elapsed,
            cooldown,
        ),
    }
}

/// `g1` holds a new meeting, with no votes yet, among the living players
/// of `ps`.
pub open spec fn meeting_opened(ps: Seq<Player>, g1: Game) -> bool {
    g1.meeting() matches Some(m) && m.votes() == Map::<u128, Option<u128>>::empty() && m.alive_count() == ps.filter(
        is_alive(),
    ).len() as u32
}

/// The outcome of `initiator` voting for `target`. Without a meeting nothing
/// happens. Otherwise the vote is recorded (replacing the initiator's earlier
/// vote); when that makes as many ballots as living players the meeting
/// closes, unless closing it would crash, and a meeting cannot hold more
/// than `u32::MAX` ballots.
pub open spec fn vote_outcome(
    g0: Game,
    g1: Game,
    o0: Seq<Effect>,
    o1: Seq<Effect>,
    initiator: u128,
    target: Option<u128>,
    r: Result<(), GameFault>,
) -> bool {
    match g0.meeting() {
        None => r is Ok && g1 == g0 && o1 == o0,
        Some(m) => exists|m1: Meeting|
            {
                &&& m1.votes() == m.votes().insert(initiator, target)
                &&& m1.alive_count() == m.alive_count()
                &&& g1.state() == g0.state()
                &&& g1.kill_cooldown() == g0.kill_cooldown()
                &&& g1.rng_state() == g0.rng_state()
                &&& if m1.votes().len() > u32::MAX {
                    r == Err::<(), GameFault>(GameFault::TooManyVotes) && g1.meeting() == Some(m1)
                        && g1.players() == g0.players() && o1 == o0
                } else if m1.votes().len() == m1.alive_count() as nat {
                    &&& (r is Err <==> end_meeting_fault(g0.players(), m1))
                    &&& r is Err ==> g1.meeting() == Some(m1) && g1.players() == g0.players() && o1 == o0
                    &&& r is Ok ==> g1.meeting() is None && meeting_closed(g0.players(), m1, g1.players(), o0, o1)
                } else {
                    r is Ok && g1.meeting() == Some(m1) && g1.players() == g0.players() && o1 == o0
                }
            },
    }
}

/// The outcome of `initiator` reporting the body of `corpse`: a living
/// "corpse" gets the initiator told off; a dead one is announced to
/// everybody and opens a meeting. An unknown corpse, or an unknown initiator
/// reporting a living player, is a fault that changes nothing.
pub open spec fn report_outcome(
    g0: Game,
    g1: Game,
    o0: Seq<Effect>,
    o1: Seq<Effect>,
    initiator: u128,
    corpse: u128,
    r: Result<(), GameFault>,
) -> bool {
    let ps = g0.players();
    if !has_player(ps, corpse) {
        r == Err::<(), GameFault>(GameFault::UnknownPlayer(corpse)) && g1 == g0 && o1 == o0
    } else if player_with(ps, corpse).alive {
        if !has_player(ps, initiator) {
            r == Err::<(), GameFault>(GameFault::UnknownPlayer(initiator)) && g1 == g0 && o1 == o0
        } else {
            &&& r is Ok
            &&& same_setting(g0, g1)
            &&& exists|s: String|
                s@ == "You cannot report this body, they are alive!"@ && one_received(
                    ps,
                    g1.players(),
                    index_of(ps, initiator),
                    seq![OutgoingWebsocketMessage::InvalidAction(s)],
                ) && o1 == o0 + deliveries_to(
                    player_with(ps, initiator),
                    seq![OutgoingWebsocketMessage::InvalidAction(s)],
                )
        }
    } else {
        let br = OutgoingWebsocketMessage::BodyReported(BodyReported { corpse, initiator });
        &&& r is Ok
        &&& all_received(ps, g1.players(), seq![br])
        &&& o1 == o0 + broadcast_effects(ps, br) + seq![Effect::EndVotingAfter { secs: VOTING_TIME_SECS }]
        &&& g1.state() == g0.state()
        &&& g1.kill_cooldown() == g0.kill_cooldown()
        &&& g1.rng_state() == g0.rng_state()
        &&& meeting_opened(ps, g1)
    }
}

/// The outcome of `initiator` calling an emergency meeting: everybody is
/// told, and a meeting opens.
pub open spec fn emergency_outcome(g0: Game, g1: Game, o0: Seq<Effect>, o1: Seq<Effect>, initiator: u128) -> bool {
    let ps = g0.players();
    let em = OutgoingWebsocketMessage::EmergencyMeetingCalled(EmergencyMeetingCalled { initiator });
    &&& all_received(ps, g1.players(), seq![em])
    &&& o1 == o0 + broadcast_effects(ps, em) + seq![Effect::EndVotingAfter { secs: VOTING_TIME_SECS }]
    &&& g1.state() == g0.state()
    &&& g1.kill_cooldown() == g0.kill_cooldown()
    &&& g1.rng_state() == g0.rng_state()
    &&& meeting_opened(ps, g1)
}

/// `p` with colour `color`.
pub open spec fn with_color(p: Player, color: String) -> Player {
    Player { color, ..p }
}

/// The outcome of `initiator` choosing `color`: their colour changes and
/// everybody is told their status. An unknown initiator is a fault that
/// changes nothing.
pub open spec fn color_outcome(
    g0: Game,
    g1: Game,
    o0: Seq<Effect>,
    o1: Seq<Effect>,
    initiator: u128,
    color: String,
    r: Result<(), GameFault>,
) -> bool {
    let ps = g0.players();
    if !has_player(ps, initiator) {
        r == Err::<(), GameFault>(GameFault::UnknownPlayer(initiator)) && g1 == g0 && o1 == o0
    } else {
        let k = index_of(ps, initiator);
        let ps1 = ps.update(k, with_color(ps[k], color));
        let sm = status_msg(ps1[k], PlayerConnectionStatus::Existing);
        &&& r is Ok
        &&& same_setting(g0, g1)
        &&& all_received(ps1, g1.players(), seq![sm])
        &&& o1 == o0 + broadcast_effects(ps1, sm)
    }
}

/// The outcome of ending the voting: without a meeting nothing happens; a
/// meeting that cannot close is a fault that changes nothing; otherwise the
/// meeting closes.
pub open spec fn end_outcome(g0: Game, g1: Game, o0: Seq<Effect>, o1: Seq<Effect>, r: Result<(), GameFault>) -> bool {
    match g0.meeting() {
        None => r is Ok && g1 == g0 && o1 == o0,
        Some(m) => {
            &&& (r is Err <==> end_meeting_fault(g0.players(), m))
            &&& r is Err ==> g1 == g0 && o1 == o0
            &&& r matches Err(GameFault::UnknownPlayer(v)) ==> ejected(m.votes(), m.alive_count()) == Some(v)
                && !has_player(g0.players(), v)
            &&& r matches Err(GameFault::RoleNotAssigned(id)) ==> has_player(g0.players(), id) && player_with(
                g0.players(),
                id,
            ).role is None
            &&& r matches Err(f) ==> f is UnknownPlayer || f is RoleNotAssigned
            &&& r is Ok ==> {
                &&& g1.meeting() is None
                &&& g1.state() == g0.state()
                &&& g1.kill_cooldown() == g0.kill_cooldown()
                &&& g1.rng_state() == g0.rng_state()
                &&& meeting_closed(g0.players(), m, g1.players(), o0, o1)
            }
        },
    }
}

/// One draw of the imposter dealing: the player at position `index` is
/// chosen when imposters are still missing (`remaining` of them) and they are
/// not chosen yet. Returns how many imposters are still missing.
pub fn choose_drawn(chosen: &mut Vec<bool>, remaining: usize, index: usize) -> (r: usize)
    requires
        index < old(chosen)@.len(),
    ensures
        (final(chosen)@, r as nat) == after_draw(old(chosen)@, remaining as nat, index as int),
{
    if remaining > 0 && !chosen[index] {
        chosen.set(index, true);
        remaining - 1
    } else {
        remaining
    }
}

/// How many imposters a game of `player_count` players has.
pub open spec fn imposter_count(player_count: int) -> int {
    if player_count <= 4 {
        1
    } else if player_count <= 7 {
        2
    } else {
        3
    }
}

/// The number of `true` entries.
pub open spec fn count_true(s: Seq<bool>) -> nat
    decreases s.len(),
{
    if s.len() == 0 {
        0
    } else {
        count_true(s.drop_last()) + if s.last() {
            1nat
        } else {
            0nat
        }
    }
}

/// The number of `false` entries.
pub open spec fn count_false(s: Seq<bool>) -> nat
    decreases s.len(),
{
    if s.len() == 0 {
        0
    } else {
        count_false(s.drop_last()) + if s.last() {
            0nat
        } else {
            1nat
        }
    }
}

proof fn lemma_count_concat(a: Seq<bool>, b: Seq<bool>)
    ensures
        count_true(a + b) == count_true(a) + count_true(b),
        count_false(a + b) == count_false(a) + count_false(b),
    decreases b.len(),
{
    if b.len() == 0 {
        assert(a + b =~= a);
    } else {
        lemma_count_concat(a, b.drop_last());
        assert((a + b).drop_last() =~= a + b.drop_last());
    }
}

proof fn lemma_count_total(s: Seq<bool>)
    ensures
        count_true(s) + count_false(s) == s.len(),
    decreases s.len(),
{
    if s.len() > 0 {
        lemma_count_total(s.drop_last());
    }
}

/// Splits `s` around position `i`, for counting.
proof fn lemma_count_split(s: Seq<bool>, i: int)
    requires
        0 <= i < s.len(),
    ensures
        count_true(s) == count_true(s.subrange(0, i)) + (if s[i] {
            1nat
        } else {
            0nat
        }) + count_true(s.subrange(i + 1, s.len() as int)),
        count_false(s) == count_false(s.subrange(0, i)) + (if s[i] {
            0nat
        } else {
            1nat
        }) + count_false(s.subrange(i + 1, s.len() as int)),
{
    let a = s.subrange(0, i);
    let x = seq![s[i]];
    let b = s.subrange(i + 1, s.len() as int);
    assert(s =~= a + x + b);
    lemma_count_concat(a + x, b);
    lemma_count_concat(a, x);
    assert(x.drop_last() =~= Seq::<bool>::empty());
    assert(count_true(x) == count_true(x.drop_last()) + if x.last() { 1nat } else { 0nat });
    assert(count_false(x) == count_false(x.drop_last()) + if x.last() { 0nat } else { 1nat });
}

/// One draw of the imposter dealing: the player at position `index` becomes
/// an imposter when imposters are still missing and they are not one yet.
/// Returns the chosen positions and how many imposters are still missing.
pub open spec fn after_draw(chosen: Seq<bool>, remaining: nat, index: int) -> (Seq<bool>, nat) {
    if remaining > 0 && 0 <= index < chosen.len() && !chosen[index] {
        (chosen.update(index, true), (remaining - 1) as nat)
    } else {
        (chosen, remaining)
    }
}

/// The dealing after the draws `drawn`, in order.
pub open spec fn after_draws(chosen: Seq<bool>, remaining: nat, drawn: Seq<usize>) -> (Seq<bool>, nat)
    decreases drawn.len(),
{
    if drawn.len() == 0 {
        (chosen, remaining)
    } else {
        let prev = after_draws(chosen, remaining, drawn.drop_last());
        after_draw(prev.0, prev.1, drawn.last() as int)
    }
}

/// The dealing once the players at positions `0..j`, in order, have been
/// offered the missing imposter places.
pub open spec fn fill_first(chosen: Seq<bool>, remaining: nat, j: nat) -> (Seq<bool>, nat)
    decreases j,
{
    if j == 0 {
        (chosen, remaining)
    } else {
        let prev = fill_first(chosen, remaining, (j - 1) as nat);
        after_draw(prev.0, prev.1, j - 1)
    }
}

/// The imposters among `fin` (of `n` players, `count` of them imposters)
/// are those that the draws `drawn` (each below `n`) choose: every drawn
/// player not chosen yet, until none is missing or the draws run out after
/// `u64::MAX` of them, and then the first players not chosen yet.
pub open spec fn dealt_from(n: nat, count: nat, fin: Seq<Player>, drawn: Seq<usize>) -> bool {
    let d = after_draws(Seq::new(n, |i: int| false), count, drawn);
    let f = fill_first(d.0, d.1, n);
    &&& drawn.len() <= u64::MAX
    &&& forall|i: int| 0 <= i < drawn.len() ==> drawn[i] < n
    &&& (d.1 == 0 || drawn.len() == u64::MAX)
    &&& forall|t: int| 0 <= t < fin.len() ==> (#[trigger] fin[t]).is_imposter() == f.0[t]
}

/// Once no imposter is missing, offering more places changes nothing.
proof fn lemma_fill_first_done(chosen: Seq<bool>, remaining: nat, j: nat, m: nat)
    requires
        j <= m,
        fill_first(chosen, remaining, j).1 == 0,
    ensures
        fill_first(chosen, remaining, m) == fill_first(chosen, remaining, j),
    decreases m - j,
{
    if m > j {
        lemma_fill_first_done(chosen, remaining, j, (m - 1) as nat);
    }
}

/// Setting an unset entry adds one `true`.
proof fn lemma_count_set(s: Seq<bool>, i: int)
    requires
        0 <= i < s.len(),
        !s[i],
    ensures
        count_true(s.update(i, true)) == count_true(s) + 1,
{
    let t = s.update(i, true);
    lemma_count_split(s, i);
    lemma_count_split(t, i);
    assert(t.subrange(0, i) =~= s.subrange(0, i));
    assert(t.subrange(i + 1, s.len() as int) =~= s.subrange(i + 1, s.len() as int));
}

/// Players whose imposters are exactly the `true` entries of `chosen` have
/// as many imposters as `chosen` has `true` entries.
proof fn lemma_imposters_counted(ps: Seq<Player>, chosen: Seq<bool>)
    requires
        ps.len() == chosen.len(),
        forall|i: int| 0 <= i < ps.len() ==> (#[trigger] ps[i]).is_imposter() == chosen[i],
    ensures
        ps.filter(is_imposter()).len() == count_true(chosen),
    decreases ps.len(),
{
    reveal(Seq::filter);
    if ps.len() > 0 {
        assert forall|i: int| 0 <= i < ps.drop_last().len() implies (#[trigger] ps.drop_last()[i]).is_imposter()
            == chosen.drop_last()[i] by {
            assert(ps[i].is_imposter() == chosen[i]);
        }
        lemma_imposters_counted(ps.drop_last(), chosen.drop_last());
        assert(ps[ps.len() - 1].is_imposter() == chosen[chosen.len() - 1]);
    }
}

/// The effects of dealing `roles[i]` to each player `ps[i]`, in order.
pub open spec fn role_deal_effects(ps: Seq<Player>, roles: Seq<RoleAssignment>) -> Seq<Effect>
    decreases ps.len(),
{
    if ps.len() == 0 || roles.len() == 0 {
        Seq::empty()
    } else {
        role_deal_effects(ps.drop_last(), roles.drop_last()) + deliveries_to(
            ps.last(),
            seq![OutgoingWebsocketMessage::PlayerRole(SetRole { role: roles.last(), id: ps.last().id })],
        )
    }
}

/// The outcome of starting the game: without players it is a fault that
/// changes nothing. Otherwise the game is in progress, every player has been
/// dealt a role (exactly `imposter_count` of them imposters, with the
/// game's kill cooldown) and told it, and then everybody learns the game has
/// started.
pub open spec fn start_outcome(g0: Game, g1: Game, o0: Seq<Effect>, o1: Seq<Effect>, r: Result<(), GameFault>) -> bool {
    let ps = g0.players();
    let fin = g1.players();
    let started = OutgoingWebsocketMessage::GameState(GameState { state: GameStateEnum::InGame });
    if ps.len() == 0 {
        r == Err::<(), GameFault>(GameFault::NoPlayers) && g1 == g0 && o1 == o0
    } else {
        &&& r is Ok
        &&& g1.state() == GameStateEnum::InGame
        &&& g1.meeting() == g0.meeting()
        &&& g1.kill_cooldown() == g0.kill_cooldown()
        &&& fin.len() == ps.len()
        &&& roles_assigned(fin)
        &&& fin.filter(is_imposter()).len() == imposter_count(ps.len() as int)
        &&& exists|drawn: Seq<usize>|
            #[trigger] dealt_from(ps.len(), imposter_count(ps.len() as int) as nat, fin, drawn)
        &&& forall|i: int|
            0 <= i < fin.len() ==> ((#[trigger] fin[i]).role matches Some(Role::Imposter(x)) ==> x.cooldown()
                == g0.kill_cooldown())
        &&& forall|i: int|
            0 <= i < fin.len() ==> received(
                Player { role: fin[i].role, ..ps[i] },
                #[trigger] fin[i],
                seq![
                    OutgoingWebsocketMessage::PlayerRole(
                        SetRole { role: assignment_of(fin[i].role->0), id: ps[i].id },
                    ),
                    started,
                ],
            )
        &&& o1 == o0 + role_deal_effects(
            ps,
            fin.map_values(|p: Player| assignment_of(p.role->0)),
        ) + broadcast_effects(ps, started)
    }
}

/// The effects of closing every open websocket of `ps`, in order.
pub open spec fn close_effects(ps: Seq<Player>) -> Seq<Effect>
    decreases ps.len(),
{
    if ps.len() == 0 {
        Seq::empty()
    } else {
        close_effects(ps.drop_last()) + if ps.last().websocket_open {
            seq![Effect::CloseWebsocket { player: ps.last().id }]
        } else {
            Seq::<Effect>::empty()
        }
    }
}

/// Closing websockets depends only on identifiers and open websockets.
pub proof fn lemma_close_effects_stable(a: Seq<Player>, b: Seq<Player>)
    requires
        same_links(a, b),
    ensures
        close_effects(a) == close_effects(b),
    decreases a.len(),
{
    if a.len() > 0 {
        assert(same_links(a.drop_last(), b.drop_last())) by {
            assert forall|i: int| 0 <= i < a.drop_last().len() implies (#[trigger] a.drop_last()[i]).id
                == b.drop_last()[i].id && a.drop_last()[i].websocket_open == b.drop_last()[i].websocket_open by {
                assert(a[i].id == b[i].id);
            }
        }
        lemma_close_effects_stable(a.drop_last(), b.drop_last());
        assert(a[a.len() - 1].id == b[b.len() - 1].id);
    }
}

/// The outcome of a kill request followed by telling everybody how the game
/// goes on. Every player needs a role for the count of the living; without
/// that it is a fault that changes nothing. Otherwise, for some elapsed time
/// since the initiator's last kill, measured against the initiator's own
/// cooldown, the kill request's fault, or its transition followed by the
/// news.
pub open spec fn kill_notify_outcome(
    g0: Game,
    g1: Game,
    o0: Seq<Effect>,
    o1: Seq<Effect>,
    initiator: u128,
    target: u128,
    r: Result<(), GameFault>,
) -> bool {
    if !roles_assigned(g0.players()) {
        &&& r matches Err(GameFault::RoleNotAssigned(id)) && has_player(g0.players(), id) && player_with(
            g0.players(),
            id,
        ).role is None
        &&& g1 == g0
        &&& o1 == o0
    } else {
        exists|elapsed: u128, cooldown: u128|
            #![trigger kill_check_at(g0, g1, o0, o1, initiator, target, elapsed, cooldown, r)]
            kill_check_at(g0, g1, o0, o1, initiator, target, elapsed, cooldown, r)
    }
}

/// `kill_notify_outcome` for a given elapsed time and cooldown.
pub open spec fn kill_check_at(
    g0: Game,
    g1: Game,
    o0: Seq<Effect>,
    o1: Seq<Effect>,
    initiator: u128,
    target: u128,
    elapsed: u128,
    cooldown: u128,
    r: Result<(), GameFault>,
) -> bool {
    &&& cooldown < max_duration_nanos()
    &&& initiator_cooldown(g0.players(), initiator, cooldown as int)
    &&& match r {
        Err(f) => kill_fault(g0.players(), initiator, target, elapsed > cooldown) == Some(f) && g1 == g0
            && o1 == o0,
        Ok(_) => {
            &&& kill_fault(g0.players(), initiator, target, elapsed > cooldown) is None
            &&& exists|gm: Game, om: Seq<Effect>|
                #![trigger kill_done(g0, gm, o0, om, initiator, target, elapsed as int, cooldown as int)]
                {
                    &&& kill_done(g0, gm, o0, om, initiator, target, elapsed as int, cooldown as int)
                    &&& same_setting(gm, g1)
                    &&& all_received(gm.players(), g1.players(), seq![next_state_message(gm.players())])
                    &&& o1 == om + broadcast_effects(gm.players(), next_state_message(gm.players()))
                }
        },
    }
}

/// The outcome of a player's websocket message.
pub open spec fn incoming_outcome(
    g0: Game,
    g1: Game,
    o0: Seq<Effect>,
    o1: Seq<Effect>,
    initiator: u128,
    incoming: IncomingWebsocketMessage,
    r: Result<(), GameFault>,
) -> bool {
    match incoming {
        IncomingWebsocketMessage::KillPlayer(kill) => kill_notify_outcome(g0, g1, o0, o1, initiator, kill.target, r),
        IncomingWebsocketMessage::ReportBody(report) => report_outcome(g0, g1, o0, o1, initiator, report.corpse, r),
        IncomingWebsocketMessage::Vote(vote) => vote_outcome(g0, g1, o0, o1, initiator, vote.target, r),
        IncomingWebsocketMessage::CallEmergencyMeeting => r is Ok && emergency_outcome(g0, g1, o0, o1, initiator),
        IncomingWebsocketMessage::ChooseColor(choose) => color_outcome(g0, g1, o0, o1, initiator, choose.color, r),
    }
}

/// A kill keeps every player's role dealt and the players' order.
pub proof fn lemma_kill_keeps_roles(
    g0: Game,
    g1: Game,
    o0: Seq<Effect>,
    o1: Seq<Effect>,
    initiator: u128,
    target: u128,
    elapsed: int,
    cooldown: int,
)
    requires
        roles_assigned(g0.players()),
        ordered_by_id(g0.players()),
        has_player(g0.players(), initiator),
        kill_refusal(g0.players(), initiator, target, elapsed, cooldown) is None ==> has_player(g0.players(), target),
        kill_done(g0, g1, o0, o1, initiator, target, elapsed, cooldown),
    ensures
        roles_assigned(g1.players()),
        ordered_by_id(g1.players()),
{
    let ps = g0.players();
    let fin = g1.players();
    match kill_refusal(ps, initiator, target, elapsed, cooldown) {
        Some(text) => {
            let s = choose|s: String|
                s@ == text && one_received(
                    ps,
                    fin,
                    index_of(ps, initiator),
                    seq![OutgoingWebsocketMessage::InvalidAction(s)],
                ) && o1 == o0 + deliveries_to(
                    player_with(ps, initiator),
                    seq![OutgoingWebsocketMessage::InvalidAction(s)],
                );
            let ki = index_of(ps, initiator);
            lemma_one_received_keeps(ps, fin, ki, seq![OutgoingWebsocketMessage::InvalidAction(s)]);
            assert forall|i: int| 0 <= i < fin.len() implies (#[trigger] fin[i]).role is Some by {
                assert(ps[i].role is Some);
            }
        },
        None => {
            let ki = index_of(ps, initiator);
            let kt = index_of(ps, target);
            assert forall|i: int| 0 <= i < fin.len() implies (#[trigger] fin[i]).role is Some && fin[i].id == ps[i].id by {
                assert(ps[i].role is Some);
            }
        },
    }
}

impl Game {
    pub closed spec fn players(&self) -> Seq<Player> {
        self.players@
    }

    pub closed spec fn state(&self) -> GameStateEnum {
        self.state
    }

    pub closed spec fn meeting(&self) -> Option<Meeting> {
        self.meeting
    }

    pub closed spec fn kill_cooldown(&self) -> Duration {
        self.kill_cooldown
    }

    /// The random number generator's state.
    pub closed spec fn rng_state(&self) -> Pcg32 {
        self.rng
    }

    /// Players are ordered by identifier.
    pub open spec fn wf(&self) -> bool {
        ordered_by_id(self.players())
    }

    /// A new game in the lobby, with no players, no meeting, the settings'
    /// kill cooldown, and a generator seeded with `seed`.
    pub fn new(settings: GameSettings, seed: u64) -> (r: Self)
        ensures
            r.wf(),
            r.state() == GameStateEnum::Lobby,
            r.players().len() == 0,
            r.kill_cooldown() == settings.kill_cooldown,
            r.meeting() is None,
    {
        Game {
            state: GameStateEnum::Lobby,
            players: Vec::new(),
            kill_cooldown: settings.kill_cooldown,
            rng: seeded_rng(seed),
            meeting: None,
        }
    }

    /// The position of the player with identifier `id`, if there is one.
    fn find_player(&self, id: u128) -> (r: Option<usize>)
        requires
            self.wf(),
        ensures
            r matches Some(i) ==> i < self.players().len() && self.players()[i as int].id == id
                && index_of(self.players(), id) == i,
            r is None <==> !has_player(self.players(), id),
    {
        let n = self.players.len();
        let mut i: usize = 0;
        while i < n
            invariant
                n == self.players@.len(),
                ordered_by_id(self.players@),
                i <= n,
                forall|j: int| 0 <= j < i ==> self.players@[j].id != id,
            decreases n - i,
        {
            if self.players[i].id == id {
                proof {
                    lemma_index_of(self.players@, i as int, id);
                }
                return Some(i);
            }
            i = i + 1;
        }
        None
    }

    /// The number of living players.
    pub fn alive_players(&self) -> (r: u32)
        ensures
            r == self.players().filter(is_alive()).len() as u32,
    {
        let ghost ps = self.players@;
        let n = self.players.len();
        let mut count: usize = 0;
        let mut i: usize = 0;
        while i < n
            invariant
                n == ps.len(),
                ps == self.players@,
                i <= n,
                count == ps.take(i as int).filter(is_alive()).len(),
            decreases n - i,
        {
            proof {
                reveal(Seq::filter);
                assert(ps.take(i + 1).drop_last() =~= ps.take(i as int));
                assert(ps.take(i + 1).filter(is_alive()) == if is_alive()(ps[i as int]) {
                    ps.take(i as int).filter(is_alive()).push(ps[i as int])
                } else {
                    ps.take(i as int).filter(is_alive())
                });
            }
            if self.players[i].alive {
                count = count + 1;
            }
            i = i + 1;
        }
        assert(ps.take(n as int) =~= ps);
        count as u32
    }

    /// The number of living crewmates. Every player must have a role.
    pub fn crewmates_alive(&self) -> (r: u32)
        requires
            roles_assigned(self.players()),
        ensures
            r == self.players().filter(is_alive_crewmate()).len() as u32,
    {
        let ghost ps = self.players@;
        let n = self.players.len();
        let mut count: usize = 0;
        let mut i: usize = 0;
        while i < n
            invariant
                n == ps.len(),
                ps == self.players@,
                i <= n,
                count == ps.take(i as int).filter(is_alive_crewmate()).len(),
            decreases n - i,
        {
            proof {
                reveal(Seq::filter);
                assert(ps.take(i + 1).drop_last() =~= ps.take(i as int));
                assert(ps.take(i + 1).filter(is_alive_crewmate()) == if is_alive_crewmate()(ps[i as int]) {
                    ps.take(i as int).filter(is_alive_crewmate()).push(ps[i as int])
                } else {
                    ps.take(i as int).filter(is_alive_crewmate())
                });
            }
            let crewmate = match self.players[i].role {
                Some(crate::player::Role::Crewmate) => true,
                _ => false,
            };
            if crewmate && self.players[i].alive {
                count = count + 1;
            }
            i = i + 1;
        }
        assert(ps.take(n as int) =~= ps);
        count as u32
    }

    /// The number of living imposters. Every player must have a role.
    pub fn imposters_alive(&self) -> (r: u32)
        requires
            roles_assigned(self.players()),
        ensures
            r == self.players().filter(is_alive_imposter()).len() as u32,
    {
        let ghost ps = self.players@;
        let n = self.players.len();
        let mut count: usize = 0;
        let mut i: usize = 0;
        while i < n
            invariant
                n == ps.len(),
                ps == self.players@,
                i <= n,
                count == ps.take(i as int).filter(is_alive_imposter()).len(),
            decreases n - i,
        {
            proof {
                reveal(Seq::filter);
                assert(ps.take(i + 1).drop_last() =~= ps.take(i as int));
                assert(ps.take(i + 1).filter(is_alive_imposter()) == if is_alive_imposter()(ps[i as int]) {
                    ps.take(i as int).filter(is_alive_imposter()).push(ps[i as int])
                } else {
                    ps.take(i as int).filter(is_alive_imposter())
                });
            }
            let imposter = match self.players[i].role {
                Some(crate::player::Role::Imposter(_)) => true,
                _ => false,
            };
            if imposter && self.players[i].alive {
                count = count + 1;
            }
            i = i + 1;
        }
        assert(ps.take(n as int) =~= ps);
        count as u32
    }

    /// Who has won, if anybody: the imposters when no crewmate is alive, else
    /// the crewmates when no imposter is alive. Every player must have a role.
    pub fn has_winner(&self) -> (r: Option<Winner>)
        requires
            roles_assigned(self.players()),
        ensures
            r == winner(self.players()),
    {
        if self.crewmates_alive() == 0 {
            Some(Winner::Imposters)
        } else if self.imposters_alive() == 0 {
            Some(Winner::Crewmates)
        } else {
            None
        }
    }

    /// Sends `msg` to every player, in order of identifier.
    fn send_message_to_all_users(&mut self, msg: OutgoingWebsocketMessage, out: &mut Vec<Effect>)
        ensures
            all_received(old(self).players(), final(self).players(), seq![msg]),
            final(out)@ == old(out)@ + broadcast_effects(old(self).players(), msg),
            final(self).state() == old(self).state(),
            final(self).meeting() == old(self).meeting(),
            final(self).kill_cooldown() == old(self).kill_cooldown(),
            final(self).rng_state() == old(self).rng_state(),
    {
        let ghost ps = self.players@;
        let ghost start = out@;
        let n = self.players.len();
        let mut i: usize = 0;
        while i < n
            invariant
                n == ps.len(),
                self.players@.len() == n,
                i <= n,
                forall|j: int| 0 <= j < i ==> received(ps[j], #[trigger] self.players@[j], seq![msg]),
                forall|j: int| i <= j < n ==> #[trigger] self.players@[j] == ps[j],
                out@ == start + broadcast_effects(ps.take(i as int), msg),
                self.state == old(self).state,
                self.meeting == old(self).meeting,
                self.kill_cooldown == old(self).kill_cooldown,
                self.rng == old(self).rng,
            decreases n - i,
        {
            let m = msg.duplicate();
            self.players[i].send_outgoing_message(m, out);
            proof {
                assert(ps.take(i + 1).drop_last() =~= ps.take(i as int));
                assert(ps.take(i + 1).last() == ps[i as int]);
            }
            i = i + 1;
            assert(out@ =~= start + broadcast_effects(ps.take(i as int), msg));
        }
        assert(ps.take(n as int) =~= ps);
    }

    /// A player without a role, if there is one.
    fn first_without_role(&self) -> (r: Option<u128>)
        ensures
            r is None <==> roles_assigned(self.players()),
            r matches Some(id) ==> has_player(self.players(), id) && exists|i: int|
                0 <= i < self.players().len() && self.players()[i].id == id
                    && self.players()[i].role is None,
    {
        let n = self.players.len();
        let mut i: usize = 0;
        while i < n
            invariant
                n == self.players@.len(),
                i <= n,
                forall|j: int| 0 <= j < i ==> (#[trigger] self.players@[j]).role is Some,
            decreases n - i,
        {
            if self.players[i].role.is_none() {
                return Some(self.players[i].id);
            }
            i = i + 1;
        }
        None
    }

    /// Copies of the imposters, in order of identifier.
    pub fn get_imposters(&self) -> (r: Vec<Player>)
        ensures
            r@.len() == self.players().filter(is_imposter()).len(),
            forall|k: int|
                0 <= k < r@.len() ==> same_player(#[trigger] r@[k], self.players().filter(is_imposter())[k]),
    {
        let ghost ps = self.players@;
        let n = self.players.len();
        let mut r: Vec<Player> = Vec::new();
        let mut i: usize = 0;
        while i < n
            invariant
                n == ps.len(),
                ps == self.players@,
                i <= n,
                r@.len() == ps.take(i as int).filter(is_imposter()).len(),
                forall|k: int|
                    0 <= k < r@.len() ==> same_player(#[trigger] r@[k], ps.take(i as int).filter(is_imposter())[k]),
            decreases n - i,
        {
            proof {
                reveal(Seq::filter);
                assert(ps.take(i + 1).drop_last() =~= ps.take(i as int));
            }
            let imposter = match self.players[i].role {
                Some(Role::Imposter(_)) => true,
                _ => false,
            };
            if imposter {
                r.push(self.players[i].duplicate());
            }
            i = i + 1;
        }
        assert(ps.take(n as int) =~= ps);
        r
    }

    /// Opens a meeting among the players now alive, and asks for its voting
    /// to end after the voting time.
    pub fn start_meeting(&mut self, out: &mut Vec<Effect>)
        ensures
            final(self).players() == old(self).players(),
            final(self).state() == old(self).state(),
            final(self).kill_cooldown() == old(self).kill_cooldown(),
            final(self).rng_state() == old(self).rng_state(),
            final(self).meeting() matches Some(m) && m.votes() == Map::<u128, Option<u128>>::empty()
                && m.alive_count() == old(self).players().filter(is_alive()).len() as u32,
            final(out)@ == old(out)@.push(Effect::EndVotingAfter { secs: VOTING_TIME_SECS }),
    {
        self.meeting = Some(Meeting::new(self.alive_players()));
        out.push(Effect::EndVotingAfter { secs: VOTING_TIME_SECS });
    }

    /// Tells every player how the game goes on: who won, or that it is still
    /// in progress. Every player must have a role.
    pub fn notify_players_of_next_state(&mut self, out: &mut Vec<Effect>)
        requires
            roles_assigned(old(self).players()),
        ensures
            all_received(old(self).players(), final(self).players(), seq![next_state_message(old(self).players())]),
            final(out)@ == old(out)@ + broadcast_effects(old(self).players(), next_state_message(old(self).players())),
            final(self).state() == old(self).state(),
            final(self).meeting() == old(self).meeting(),
            final(self).kill_cooldown() == old(self).kill_cooldown(),
            final(self).rng_state() == old(self).rng_state(),
    {
        match self.has_winner() {
            Some(winner) => {
                self.send_message_to_all_users(OutgoingWebsocketMessage::GameOver(winner), out)
            },
            None => {
                self.send_message_to_all_users(
                    OutgoingWebsocketMessage::GameState(GameState { state: GameStateEnum::InGame }),
                    out,
                )
            },
        }
    }

    /// Ends the meeting, if one is open: tells everybody whom it voted out,
    /// kills that player, and tells everybody how the game goes on. Without
    /// a meeting nothing happens. The request fails, changing nothing, when
    /// the player voted out is unknown or a player has no role.
    pub fn end_meeting(&mut self, out: &mut Vec<Effect>) -> (r: Result<(), GameFault>)
        requires
            old(self).wf(),
        ensures
            final(self).wf(),
            r is Err <==> (old(self).meeting() matches Some(m) && end_meeting_fault(old(self).players(), m)),
            r is Err ==> *final(self) == *old(self) && final(out)@ == old(out)@,
            r matches Err(GameFault::UnknownPlayer(v)) ==> old(self).meeting() matches Some(m) && ejected(
                m.votes(),
                m.alive_count(),
            ) == Some(v) && !has_player(old(self).players(), v),
            r matches Err(GameFault::RoleNotAssigned(id)) ==> has_player(old(self).players(), id)
                && player_with(old(self).players(), id).role is None,
            r matches Err(f) ==> f is UnknownPlayer || f is RoleNotAssigned,
            (r is Ok && old(self).meeting() is None) ==> *final(self) == *old(self) && final(out)@
                == old(out)@,
            (r is Ok && old(self).meeting() is Some) ==> ({
                &&& final(self).meeting() is None
                &&& final(self).state() == old(self).state()
                &&& final(self).kill_cooldown() == old(self).kill_cooldown()
                &&& final(self).rng_state() == old(self).rng_state()
                &&& meeting_closed(
                    old(self).players(),
                    old(self).meeting()->0,
                    final(self).players(),
                    old(out)@,
                    final(out)@,
                )
            }),
    {
        let voted = match &self.meeting {
            None => {
                return Ok(());
            },
            Some(meeting) => meeting.person_voted_out(),
        };
        let voted_index = match voted {
            Some(v) => match self.find_player(v) {
                Some(i) => Some(i),
                None => {
                    return Err(GameFault::UnknownPlayer(v));
                },
            },
            None => None,
        };
        if let Some(id) = self.first_without_role() {
            proof {
                let i = choose|i: int|
                    0 <= i < self.players@.len() && self.players@[i].id == id && self.players@[i].role is None;
                lemma_index_of(self.players@, i, id);
            }
            return Err(GameFault::RoleNotAssigned(id));
        }
        let ghost ps = self.players@;
        let ghost m = self.meeting->0;
        self.meeting = None;
        let vr = OutgoingWebsocketMessage::VotingResults(VotingResults { ejected_player: voted });
        self.send_message_to_all_users(vr, out);
        let ghost ps_a = self.players@;
        let ghost out_a = out@;
        proof {
            lemma_all_received_ordered(ps, ps_a, seq![vr]);
        }
        if let Some(i) = voted_index {
            self.players[i].alive = false;
        }
        let ghost ps_b = self.players@;
        let ghost ps1 = eject(ps, voted);
        proof {
            assert forall|k: int| 0 <= k < ps_b.len() implies received(ps1[k], #[trigger] ps_b[k], seq![vr]) by {
                assert(received(ps[k], ps_a[k], seq![vr]));
                if voted == Some(ps[k].id) {
                    lemma_index_of(ps, k, ps[k].id);
                }
            }
            assert(all_received(ps1, ps_b, seq![vr]));
            assert(roles_assigned(ps_b)) by {
                assert forall|k: int| 0 <= k < ps_b.len() implies (#[trigger] ps_b[k]).role is Some by {
                    assert(ps[k].role is Some);
                    assert(received(ps1[k], ps_b[k], seq![vr]));
                }
            }
            assert forall|k: int| 0 <= k < ps_b.len() implies ps_b[k].alive == ps1[k].alive && ps_b[k].role == ps1[k].role by {
                assert(received(ps1[k], ps_b[k], seq![vr]));
            }
            lemma_winner_agrees(ps_b, ps1);
            lemma_all_received_ordered(ps1, ps_b, seq![vr]);
        }
        self.notify_players_of_next_state(out);
        proof {
            let nm = next_state_message(ps1);
            lemma_all_received_chain(ps1, ps_b, self.players@, seq![vr], seq![nm]);
            assert(seq![vr] + seq![nm] =~= seq![vr, nm]);
            assert(same_links(ps, ps_b)) by {
                assert forall|k: int| 0 <= k < ps.len() implies (#[trigger] ps[k]).id == ps_b[k].id
                    && ps[k].websocket_open == ps_b[k].websocket_open by {
                    assert(received(ps1[k], ps_b[k], seq![vr]));
                }
            }
            lemma_broadcast_effects_stable(ps, ps_b, nm);
            lemma_all_received_ordered(ps_b, self.players@, seq![nm]);
        }
        Ok(())
    }

    /// How the player with identifier `player_id` connects: `Reconnected`
    /// when a websocket was open for them before, `New` otherwise; `None` for
    /// an unknown player.
    fn get_player_connection_status(&self, player_id: &u128) -> (r: Option<PlayerConnectionStatus>)
        requires
            self.wf(),
        ensures
            r is None <==> !has_player(self.players(), *player_id),
            r is Some ==> r == Some(
                if player_with(self.players(), *player_id).has_connected_previously {
                    PlayerConnectionStatus::Reconnected
                } else {
                    PlayerConnectionStatus::New
                },
            ),
    {
        let i = self.find_player(*player_id)?;
        Some(
            match self.players[i].has_connected_previously {
                true => PlayerConnectionStatus::Reconnected,
                false => PlayerConnectionStatus::New,
            },
        )
    }

    /// Sends `msgs`, in order, to the player at position `k`.
    fn send_all_to_player(&mut self, k: usize, msgs: Vec<OutgoingWebsocketMessage>, out: &mut Vec<Effect>)
        requires
            k < old(self).players().len(),
        ensures
            one_received(old(self).players(), final(self).players(), k as int, msgs@),
            final(out)@ == old(out)@ + deliveries_to(old(self).players()[k as int], msgs@),
            final(self).state() == old(self).state(),
            final(self).meeting() == old(self).meeting(),
            final(self).kill_cooldown() == old(self).kill_cooldown(),
            final(self).rng_state() == old(self).rng_state(),
    {
        let ghost ps = self.players@;
        let ghost start = out@;
        let ghost p = ps[k as int];
        let n = msgs.len();
        let mut j: usize = 0;
        while j < n
            invariant
                n == msgs@.len(),
                j <= n,
                k < ps.len(),
                p == ps[k as int],
                one_received(ps, self.players@, k as int, msgs@.take(j as int)),
                out@ == start + deliveries_to(p, msgs@.take(j as int)),
                self.state == old(self).state,
                self.meeting == old(self).meeting,
                self.kill_cooldown == old(self).kill_cooldown,
                self.rng == old(self).rng,
            decreases n - j,
        {
            let m = msgs[j].duplicate();
            self.players[k].send_outgoing_message(m, out);
            proof {
                let t = msgs@.take(j as int);
                assert(msgs@.take(j + 1) =~= t.push(msgs@[j as int]));
                assert(t + seq![msgs@[j as int]] =~= t.push(msgs@[j as int]));
                let f = |mm: OutgoingWebsocketMessage| Effect::Send { to: p.id, msg: mm };
                assert(t.push(msgs@[j as int]).map_values(f) =~= t.map_values(f) + seq![msgs@[j as int]].map_values(f));
                assert(self.players@[k as int].previously_sent_messages@ =~= p.previously_sent_messages@ + t.push(msgs@[j as int]));
            }
            j = j + 1;
            assert(out@ =~= start + deliveries_to(p, msgs@.take(j as int)));
        }
        assert(msgs@.take(n as int) =~= msgs@);
    }

    /// Tells the player `player_id` the status of every other player.
    fn tell_player_about_others(&mut self, player_id: &u128, out: &mut Vec<Effect>)
        requires
            old(self).wf(),
            has_player(old(self).players(), *player_id),
        ensures
            final(self).wf(),
            one_received(
                old(self).players(),
                final(self).players(),
                index_of(old(self).players(), *player_id),
                others_status(old(self).players(), *player_id),
            ),
            final(out)@ == old(out)@ + deliveries_to(
                player_with(old(self).players(), *player_id),
                others_status(old(self).players(), *player_id),
            ),
            final(self).state() == old(self).state(),
            final(self).meeting() == old(self).meeting(),
            final(self).kill_cooldown() == old(self).kill_cooldown(),
            final(self).rng_state() == old(self).rng_state(),
    {
        let ghost ps = self.players@;
        let n = self.players.len();
        let mut statuses: Vec<OutgoingWebsocketMessage> = Vec::new();
        let mut i: usize = 0;
        while i < n
            invariant
                n == ps.len(),
                ps == self.players@,
                i <= n,
                statuses@ == others_status(ps.take(i as int), *player_id),
            decreases n - i,
        {
            proof {
                assert(ps.take(i + 1).drop_last() =~= ps.take(i as int));
            }
            if self.players[i].id != *player_id {
                let existing = &self.players[i];
                statuses.push(
                    OutgoingWebsocketMessage::PlayerStatus(
                        PlayerStatus {
                            player: PlayerSerializable::generate_for_user(existing, player_id),
                            status: PlayerConnectionStatus::Existing,
                        },
                    ),
                );
            }
            i = i + 1;
            assert(statuses@ =~= others_status(ps.take(i as int), *player_id));
        }
        assert(ps.take(n as int) =~= ps);
        let k = match self.find_player(*player_id) {
            Some(k) => k,
            None => {
                return;
            },
        };
        self.send_all_to_player(k, statuses, out);
        proof {
            lemma_index_of(ps, k as int, *player_id);
            assert(ordered_by_id(self.players@)) by {
                assert forall|a: int, b: int| 0 <= a < b < self.players@.len() implies self.players@[a].id
                    < self.players@[b].id by {
                    if a == k {
                        assert(received(ps[a], self.players@[a], statuses@));
                    }
                    if b == k {
                        assert(received(ps[b], self.players@[b], statuses@));
                    }
                }
            }
        }
    }

    /// Tells the player `player_id` their role and, if they are an imposter,
    /// who all the imposters are.
    fn tell_player_about_roles(&mut self, player_id: &u128, out: &mut Vec<Effect>)
        requires
            old(self).wf(),
            has_player(old(self).players(), *player_id),
        ensures
            final(self).wf(),
            one_received(
                old(self).players(),
                final(self).players(),
                index_of(old(self).players(), *player_id),
                roles_msgs(old(self).players(), *player_id),
            ),
            final(out)@ == old(out)@ + deliveries_to(
                player_with(old(self).players(), *player_id),
                roles_msgs(old(self).players(), *player_id),
            ),
            final(self).state() == old(self).state(),
            final(self).meeting() == old(self).meeting(),
            final(self).kill_cooldown() == old(self).kill_cooldown(),
            final(self).rng_state() == old(self).rng_state(),
    {
        let ghost ps = self.players@;
        let other_imposters = self.get_imposters();
        let k = match self.find_player(*player_id) {
            Some(k) => k,
            None => {
                return;
            },
        };
        proof {
            lemma_index_of(ps, k as int, *player_id);
        }
        let mut msgs: Vec<OutgoingWebsocketMessage> = Vec::new();
        let role = self.players[k].role;
        if let Some(role) = role {
            let role_assignment = match role {
                Role::Imposter(_) => RoleAssignment::Imposter,
                Role::Crewmate => RoleAssignment::Crewmate,
            };
            msgs.push(
                OutgoingWebsocketMessage::PlayerRole(
                    SetRole { role: role_assignment, id: self.players[k].id },
                ),
            );
            if let Role::Imposter(_) = role {
                let ghost fi = ps.filter(is_imposter());
                let m = other_imposters.len();
                let mut j: usize = 0;
                while j < m
                    invariant
                        m == other_imposters@.len(),
                        m == fi.len(),
                        j <= m,
                        forall|t: int| 0 <= t < m ==> same_player(#[trigger] other_imposters@[t], fi[t]),
                        msgs@.len() == 1 + j,
                        msgs@.subrange(1, 1 + j as int) == fi.map_values(imposter_role_msg()).take(j as int),
                        msgs@[0] == OutgoingWebsocketMessage::PlayerRole(SetRole { role: role_assignment, id: ps[k as int].id }),
                    decreases m - j,
                {
                    proof {
                        assert(same_player(other_imposters@[j as int], fi[j as int]));
                        assert(fi.map_values(imposter_role_msg())[j as int] == imposter_role_msg()(fi[j as int]));
                    }
                    let ghost before = msgs@;
                    msgs.push(
                        OutgoingWebsocketMessage::PlayerRole(
                            SetRole { role: RoleAssignment::Imposter, id: other_imposters[j].id },
                        ),
                    );
                    assert(msgs@[1 + j as int] == fi.map_values(imposter_role_msg())[j as int]);
                    assert(msgs@.subrange(1, 1 + j as int) =~= before.subrange(1, 1 + j as int));
                    j = j + 1;
                    assert(msgs@.subrange(1, 1 + j as int) =~= fi.map_values(imposter_role_msg()).take(j as int));
                }
                assert(msgs@ =~= seq![msgs@[0]] + fi.map_values(imposter_role_msg()).take(m as int));
                assert(fi.map_values(imposter_role_msg()).take(m as int) =~= fi.map_values(imposter_role_msg()));
            } else {
                assert(msgs@ =~= seq![msgs@[0]] + Seq::<OutgoingWebsocketMessage>::empty());
            }
        } else {
            assert(msgs@ =~= Seq::<OutgoingWebsocketMessage>::empty());
        }
        assert(msgs@ == roles_msgs(ps, *player_id));
        self.send_all_to_player(k, msgs, out);
        proof {
            assert(ordered_by_id(self.players@)) by {
                assert forall|a: int, b: int| 0 <= a < b < self.players@.len() implies self.players@[a].id
                    < self.players@[b].id by {
                    if a == k {
                        assert(received(ps[a], self.players@[a], roles_msgs(ps, *player_id)));
                    }
                    if b == k {
                        assert(received(ps[b], self.players@[b], roles_msgs(ps, *player_id)));
                    }
                }
            }
        }
    }

    /// Tells the player `player_id` the status of everybody else, the roles
    /// they may know, and the game's phase.
    pub fn notify_player_with_game_status(&mut self, player_id: &u128, out: &mut Vec<Effect>)
        requires
            old(self).wf(),
            has_player(old(self).players(), *player_id),
        ensures
            final(self).wf(),
            one_received(
                old(self).players(),
                final(self).players(),
                index_of(old(self).players(), *player_id),
                game_status_msgs(old(self).players(), *player_id, old(self).state()),
            ),
            final(out)@ == old(out)@ + deliveries_to(
                player_with(old(self).players(), *player_id),
                game_status_msgs(old(self).players(), *player_id, old(self).state()),
            ),
            final(self).state() == old(self).state(),
            final(self).meeting() == old(self).meeting(),
            final(self).kill_cooldown() == old(self).kill_cooldown(),
            final(self).rng_state() == old(self).rng_state(),
    {
        let ghost ps0 = self.players@;
        let ghost out0 = out@;
        let ghost k = index_of(ps0, *player_id);
        let ghost p0 = ps0[k];
        self.tell_player_about_others(player_id, out);
        let ghost ps1 = self.players@;
        let ghost m1 = others_status(ps0, *player_id);
        proof {
            lemma_one_received_keeps(ps0, ps1, k, m1);
            lemma_index_of(ps1, k, *player_id);
            lemma_imposter_role_msgs_agree(ps0, ps1);
            assert(roles_msgs(ps1, *player_id) == roles_msgs(ps0, *player_id));
        }
        self.tell_player_about_roles(player_id, out);
        let ghost ps2 = self.players@;
        let ghost m2 = roles_msgs(ps0, *player_id);
        proof {
            lemma_one_received_keeps(ps1, ps2, k, m2);
            lemma_index_of(ps2, k, *player_id);
            lemma_one_received_chain(ps0, ps1, ps2, k, m1, m2);
        }
        let k_exec = match self.find_player(*player_id) {
            Some(i) => i,
            None => {
                return;
            },
        };
        let m3 = OutgoingWebsocketMessage::GameState(GameState { state: self.state });
        self.send_to_player(k_exec, m3, out);
        proof {
            lemma_one_received_chain(ps0, ps2, self.players@, k, m1 + m2, seq![m3]);
            lemma_one_received_keeps(ps2, self.players@, k, seq![m3]);
            assert(m1 + m2 + seq![m3] == game_status_msgs(ps0, *player_id, self.state));
            assert(deliveries_to(ps1[k], m2) == deliveries_to(p0, m2));
            assert(deliveries_to(ps2[k], seq![m3]) == deliveries_to(p0, seq![m3]));
            lemma_deliveries_concat(p0, m1, m2);
            lemma_deliveries_concat(p0, m1 + m2, seq![m3]);
        }
    }

    /// Sends `msg` to the player at position `k`.
    fn send_to_player(&mut self, k: usize, msg: OutgoingWebsocketMessage, out: &mut Vec<Effect>)
        requires
            k < old(self).players().len(),
        ensures
            one_received(old(self).players(), final(self).players(), k as int, seq![msg]),
            final(out)@ == old(out)@ + deliveries_to(old(self).players()[k as int], seq![msg]),
            final(self).state() == old(self).state(),
            final(self).meeting() == old(self).meeting(),
            final(self).kill_cooldown() == old(self).kill_cooldown(),
            final(self).rng_state() == old(self).rng_state(),
    {
        self.players[k].send_outgoing_message(msg, out);
    }

    /// Tells everybody the status `player_status` of the player `player_id`.
    pub fn notify_others_about_this_player(
        &mut self,
        player_id: &u128,
        player_status: PlayerConnectionStatus,
        out: &mut Vec<Effect>,
    )
        requires
            old(self).wf(),
            has_player(old(self).players(), *player_id),
        ensures
            final(self).wf(),
            all_received(
                old(self).players(),
                final(self).players(),
                seq![status_msg(player_with(old(self).players(), *player_id), player_status)],
            ),
            final(out)@ == old(out)@ + broadcast_effects(
                old(self).players(),
                status_msg(player_with(old(self).players(), *player_id), player_status),
            ),
            final(self).state() == old(self).state(),
            final(self).meeting() == old(self).meeting(),
            final(self).kill_cooldown() == old(self).kill_cooldown(),
            final(self).rng_state() == old(self).rng_state(),
    {
        let k = match self.find_player(*player_id) {
            Some(k) => k,
            None => {
                return;
            },
        };
        let player = &self.players[k];
        let msg = OutgoingWebsocketMessage::PlayerStatus(
            PlayerStatus {
                player: PlayerSerializable::generate_for_user(player, player_id),
                status: player_status,
            },
        );
        let ghost ps = self.players@;
        self.send_message_to_all_users(msg, out);
        proof {
            lemma_all_received_ordered(ps, self.players@, seq![msg]);
        }
    }

    /// Adds `player`, replacing any player with its identifier.
    fn insert_player(&mut self, player: Player)
        requires
            old(self).wf(),
        ensures
            final(self).wf(),
            inserted(old(self).players(), final(self).players(), player),
            final(self).state() == old(self).state(),
            final(self).meeting() == old(self).meeting(),
            final(self).kill_cooldown() == old(self).kill_cooldown(),
            final(self).rng_state() == old(self).rng_state(),
    {
        let ghost b0 = self.players@;
        let ghost p = player;
        let id = player.id;
        let n = self.players.len();
        let mut i: usize = 0;
        while i < n && self.players[i].id < id
            invariant
                n == self.players@.len(),
                self.players@ == b0,
                i <= n,
                forall|j: int| 0 <= j < i ==> self.players@[j].id < id,
            decreases n - i,
        {
            i = i + 1;
        }
        if i < n && self.players[i].id == id {
            self.players.set(i, player);
            proof {
                let b1 = self.players@;
                assert(b1 == b0.update(i as int, p));
                assert(ordered_by_id(b1));
                lemma_index_of(b0, i as int, id);
                assert forall|o: u128| #[trigger] has_player(b1, o) == (o == id || has_player(b0, o)) by {
                    if has_player(b0, o) {
                        let j = choose|j: int| 0 <= j < b0.len() && b0[j].id == o;
                        assert(b1[j].id == o);
                    }
                    if has_player(b1, o) {
                        let j = choose|j: int| 0 <= j < b1.len() && b1[j].id == o;
                        assert(b0[j].id == o);
                    }
                }
                assert forall|o: u128| o != id && has_player(b0, o) implies #[trigger] player_with(b1, o)
                    == player_with(b0, o) by {
                    let j = choose|j: int| 0 <= j < b0.len() && b0[j].id == o;
                    lemma_index_of(b0, j, o);
                    lemma_index_of(b1, j, o);
                }
                lemma_index_of(b1, i as int, id);
            }
        } else {
            self.players.insert(i, player);
            proof {
                let b1 = self.players@;
                assert(b1 == b0.insert(i as int, p));
                assert forall|j: int| i <= j < b0.len() implies id < b0[j].id by {
                    if j > i {
                        assert(b0[i as int].id < b0[j].id);
                    }
                }
                assert(ordered_by_id(b1));
                assert(!has_player(b0, id)) by {
                    if has_player(b0, id) {
                        let j = choose|j: int| 0 <= j < b0.len() && b0[j].id == id;
                        if j >= i {
                            assert(id < b0[j].id);
                        }
                    }
                }
                assert forall|o: u128| #[trigger] has_player(b1, o) == (o == id || has_player(b0, o)) by {
                    if has_player(b0, o) {
                        let j = choose|j: int| 0 <= j < b0.len() && b0[j].id == o;
                        if j < i {
                            assert(b1[j].id == o);
                        } else {
                            assert(b1[j + 1].id == o);
                        }
                    }
                    if o == id {
                        assert(b1[i as int].id == o);
                    }
                    if has_player(b1, o) && o != id {
                        let j = choose|j: int| 0 <= j < b1.len() && b1[j].id == o;
                        if j < i {
                            assert(b0[j].id == o);
                        } else {
                            assert(j != i);
                            assert(b0[j - 1].id == o);
                        }
                    }
                }
                assert forall|o: u128| o != id && has_player(b0, o) implies #[trigger] player_with(b1, o)
                    == player_with(b0, o) by {
                    let j = choose|j: int| 0 <= j < b0.len() && b0[j].id == o;
                    lemma_index_of(b0, j, o);
                    if j < i {
                        lemma_index_of(b1, j, o);
                    } else {
                        lemma_index_of(b1, j + 1, o);
                    }
                }
                lemma_index_of(b1, i as int, id);
            }
        }
    }

    /// Adds a new player with the request's name and identifier to the
    /// game, replacing any player with that identifier.
    pub fn handle_register_player(&mut self, msg: RegisterPlayer)
        requires
            old(self).wf(),
        ensures
            final(self).wf(),
            inserted(old(self).players(), final(self).players(), player_with(final(self).players(), msg.id)),
            ({
                let q = player_with(final(self).players(), msg.id);
                &&& q.role is None
                &&& q.username@ == msg.name@
                &&& q.alive
                &&& q.color@ == "#FFFFFF"@
                &&& !q.has_connected_previously
                &&& q.id == msg.id
                &&& !q.websocket_open
                &&& q.previously_sent_messages@.len() == 0
            }),
            final(self).state() == old(self).state(),
            final(self).meeting() == old(self).meeting(),
            final(self).kill_cooldown() == old(self).kill_cooldown(),
            final(self).rng_state() == old(self).rng_state(),
    {
        let player = Player::new(msg.name.as_str(), msg.id);
        self.insert_player(player);
    }

    /// Records that a websocket to the player is open, tells everybody that
    /// they connected (`New` the first time, `Reconnected` after that), and
    /// then tells them the game's status. Fails, changing nothing, for an
    /// unknown player.
    pub fn handle_register_player_websocket(&mut self, msg: RegisterPlayerWebsocket, out: &mut Vec<Effect>) -> (r: Result<(), GameFault>)
        requires
            old(self).wf(),
        ensures
            final(self).wf(),
            r is Err <==> !has_player(old(self).players(), msg.id),
            r is Err ==> r == Err::<(), GameFault>(GameFault::UnknownPlayer(msg.id)) && *final(self) == *old(self)
                && final(out)@ == old(out)@,
            r is Ok ==> ({
                let ps = old(self).players();
                let k = index_of(ps, msg.id);
                let p = ps[k];
                let ps1 = ps.update(k, connected(p));
                let gs = game_status_msgs(ps1, msg.id, old(self).state());
                let sm = status_msg(p, connection_status(p));
                &&& final(self).players().len() == ps.len()
                &&& forall|i: int|
                    0 <= i < ps.len() ==> received(
                        ps1[i],
                        #[trigger] final(self).players()[i],
                        if i == k {
                            seq![sm] + gs
                        } else {
                            seq![sm]
                        },
                    )
                &&& final(out)@ == old(out)@ + broadcast_effects(ps1, sm) + deliveries_to(ps1[k], gs)
            }),
            final(self).state() == old(self).state(),
            final(self).meeting() == old(self).meeting(),
            final(self).kill_cooldown() == old(self).kill_cooldown(),
            final(self).rng_state() == old(self).rng_state(),
    {
        let k = match self.find_player(msg.id) {
            Some(k) => k,
            None => {
                return Err(GameFault::UnknownPlayer(msg.id));
            },
        };
        let ghost ps = self.players@;
        let player_status = match self.get_player_connection_status(&msg.id) {
            Some(s) => s,
            None => {
                return Err(GameFault::UnknownPlayer(msg.id));
            },
        };
        self.players[k].set_websocket_address();
        let ghost ps1 = self.players@;
        proof {
            assert(ps1 =~= ps.update(k as int, connected(ps[k as int])));
            assert(ordered_by_id(ps1));
            lemma_index_of(ps1, k as int, msg.id);
            assert(serializable(ps1[k as int]) == serializable(ps[k as int]));
        }
        self.notify_others_about_this_player(&msg.id, player_status, out);
        let ghost ps2 = self.players@;
        let ghost sm = status_msg(ps[k as int], player_status);
        let ghost gs = game_status_msgs(ps1, msg.id, self.state);
        proof {
            lemma_all_received_ordered(ps1, ps2, seq![sm]);
            lemma_index_of(ps2, k as int, msg.id);
            assert forall|i: int| 0 <= i < ps1.len() implies serializable(ps1[i]) == serializable(ps2[i])
                && ps1[i].role == ps2[i].role && ps1[i].id == ps2[i].id by {
                assert(received(ps1[i], ps2[i], seq![sm]));
            }
            lemma_others_status_agree(ps1, ps2, msg.id);
            lemma_imposter_role_msgs_agree(ps1, ps2);
            assert(received(ps1[k as int], ps2[k as int], seq![sm]));
            assert(roles_msgs(ps2, msg.id) == roles_msgs(ps1, msg.id));
            assert(game_status_msgs(ps2, msg.id, self.state) == gs);
        }
        self.notify_player_with_game_status(&msg.id, out);
        proof {
            let fin = self.players@;
            assert forall|i: int| 0 <= i < ps.len() implies received(
                ps1[i],
                #[trigger] fin[i],
                if i == k {
                    seq![sm] + gs
                } else {
                    seq![sm]
                },
            ) by {
                assert(received(ps1[i], ps2[i], seq![sm]));
                if i == k {
                    assert(received(ps2[i], fin[i], gs));
                    assert(fin[i].previously_sent_messages@ =~= ps1[i].previously_sent_messages@ + (seq![sm] + gs));
                } else {
                    assert(fin[i] == ps2[i]);
                }
            }
            assert(deliveries_to(ps2[k as int], gs) == deliveries_to(ps1[k as int], gs));
        }
        Ok(())
    }

    /// Closes the websocket of the player who disconnected and tells
    /// everybody. An unknown player changes nothing.
    pub fn handle_player_disconnected(&mut self, msg: PlayerDisconnected, out: &mut Vec<Effect>)
        requires
            old(self).wf(),
        ensures
            final(self).wf(),
            !has_player(old(self).players(), msg.id) ==> *final(self) == *old(self) && final(out)@ == old(out)@,
            has_player(old(self).players(), msg.id) ==> ({
                let ps = old(self).players();
                let k = index_of(ps, msg.id);
                let p = ps[k];
                let ps1 = ps.update(k, disconnected(p));
                let sm = status_msg(p, PlayerConnectionStatus::Disconnected);
                &&& all_received(ps1, final(self).players(), seq![sm])
                &&& final(out)@ == old(out)@ + (if p.websocket_open {
                    seq![Effect::CloseWebsocket { player: msg.id }]
                } else {
                    Seq::<Effect>::empty()
                }) + broadcast_effects(ps1, sm)
            }),
            final(self).state() == old(self).state(),
            final(self).meeting() == old(self).meeting(),
            final(self).kill_cooldown() == old(self).kill_cooldown(),
            final(self).rng_state() == old(self).rng_state(),
    {
        match self.find_player(msg.id) {
            Some(k) => {
                let ghost ps = self.players@;
                self.players[k].close_websocket(out);
                let ghost ps1 = self.players@;
                proof {
                    assert(ps1 =~= ps.update(k as int, disconnected(ps[k as int])));
                    assert(ordered_by_id(ps1));
                    lemma_index_of(ps1, k as int, msg.id);
                }
                let player = &self.players[k];
                let player_status = OutgoingWebsocketMessage::PlayerStatus(
                    PlayerStatus {
                        player: PlayerSerializable::generate_for_user(player, &msg.id),
                        status: PlayerConnectionStatus::Disconnected,
                    },
                );
                self.send_message_to_all_users(player_status, out);
                proof {
                    lemma_all_received_ordered(ps1, self.players@, seq![player_status]);
                }
            },
            None => {},
        }
    }

    /// Whether the game is in progress.
    pub fn handle_has_game_started(&self, msg: HasGameStarted) -> (r: bool)
        ensures
            r == (self.state() == GameStateEnum::InGame),
    {
        match self.state {
            GameStateEnum::Lobby => false,
            GameStateEnum::Reset => false,
            GameStateEnum::InGame => true,
        }
    }

    /// Whether a player has the request's identifier.
    pub fn handle_player_exists(&self, msg: PlayerExists) -> (r: bool)
        requires
            self.wf(),
        ensures
            r == has_player(self.players(), msg.id),
    {
        self.find_player(msg.id).is_some()
    }

    /// The colour of the request's player; fails for an unknown player.
    pub fn handle_get_player_color(&self, msg: GetPlayerColor) -> (r: Result<String, GameFault>)
        requires
            self.wf(),
        ensures
            r is Err <==> !has_player(self.players(), msg.id),
            r matches Err(f) ==> f == GameFault::UnknownPlayer(msg.id),
            r matches Ok(c) ==> c == player_with(self.players(), msg.id).color,
    {
        match self.find_player(msg.id) {
            Some(k) => Ok(self.players[k].color.clone()),
            None => Err(GameFault::UnknownPlayer(msg.id)),
        }
    }

    /// A fresh player identifier: sixteen bytes drawn from the game's
    /// generator, read as a UUID.
    pub fn handle_get_next_uuid(&mut self, msg: GetNextUUID) -> (r: u128)
        ensures
            final(self).players() == old(self).players(),
            final(self).state() == old(self).state(),
            final(self).meeting() == old(self).meeting(),
            final(self).kill_cooldown() == old(self).kill_cooldown(),
    {
        let bytes = draw_bytes(&mut self.rng);
        uuid_from_bytes(bytes)
    }

    /// The answer to `initiator` asking to kill `target`, when `elapsed`
    /// nanoseconds have passed since the initiator's last kill and their
    /// cooldown is `cooldown` nanoseconds: a fault, a refusal to send back,
    /// or `None` when the kill may happen.
    pub fn kill_check(&self, initiator: u128, target: u128, elapsed: u128, cooldown: u128) -> (r: Result<Option<String>, GameFault>)
        requires
            self.wf(),
            cooldown < max_duration_nanos(),
        ensures
            kill_verdict(self.players(), initiator, target, elapsed as int, cooldown as int, r),
    {
        let ki = match self.find_player(initiator) {
            Some(k) => k,
            None => {
                return Err(GameFault::UnknownPlayer(initiator));
            },
        };
        match self.players[ki].role {
            None => Err(GameFault::RoleNotAssigned(initiator)),
            Some(Role::Crewmate) => Ok(
                Some("Good try, but you can only kill people if you are an imposter!".to_string()),
            ),
            Some(Role::Imposter(_)) => {
                if !(elapsed > cooldown) {
                    return Ok(Some(cooldown_message_for(cooldown - elapsed)));
                }
                let kt = match self.find_player(target) {
                    Some(k) => k,
                    None => {
                        return Err(GameFault::UnknownPlayer(target));
                    },
                };
                match self.players[kt].role {
                    None => Err(GameFault::RoleNotAssigned(target)),
                    Some(Role::Crewmate) => {
                        if !self.players[kt].alive {
                            let mut text = "You cannot kill ".to_string();
                            text.append(self.players[kt].username.as_str());
                            text.append(" since they are already dead");
                            Ok(Some(text))
                        } else {
                            Ok(None)
                        }
                    },
                    Some(Role::Imposter(_)) => Ok(
                        Some("You cannot kill a fellow imposter, silly".to_string()),
                    ),
                }
            },
        }
    }

    /// The time since the last kill of `initiator`, and their cooldown, in
    /// nanoseconds, when they are an imposter; zeros otherwise. It depends on
    /// the time of the call.
    fn kill_timing(&self, initiator: u128) -> (r: (u128, u128))
        requires
            self.wf(),
        ensures
            r.1 < max_duration_nanos(),
            !has_player(self.players(), initiator) ==> r == (0u128, 0u128),
            has_player(self.players(), initiator) ==> match player_with(self.players(), initiator).role {
                Some(Role::Imposter(x)) => r.0 < max_duration_nanos() && r.1 == duration_as_nanos(x.cooldown()),
                _ => r == (0u128, 0u128),
            },
    {
        match self.find_player(initiator) {
            Some(k) => match &self.players[k].role {
                Some(Role::Imposter(imposter)) => (imposter.nanos_since_last_kill(), imposter.cooldown_nanos()),
                _ => (0, 0),
            },
            None => (0, 0),
        }
    }

    /// Whether `initiator` may kill `target` now: a fault, a refusal to send
    /// back, or `None` when the kill may happen. It reads the clock, so it
    /// holds for some elapsed time since the initiator's last kill, measured
    /// against the initiator's own kill cooldown.
    pub fn validate_kill_can_happen(&self, initiator: u128, target: u128) -> (r: Result<Option<String>, GameFault>)
        requires
            self.wf(),
        ensures
            exists|elapsed: u128, cooldown: u128|
                cooldown < max_duration_nanos() && initiator_cooldown(self.players(), initiator, cooldown as int)
                    && kill_verdict(
                    self.players(),
                    initiator,
                    target,
                    elapsed as int,
                    cooldown as int,
                    r,
                ),
    {
        let (elapsed, cooldown) = self.kill_timing(initiator);
        self.kill_check(initiator, target, elapsed, cooldown)
    }

    /// `initiator` asks to kill `target`: a refused kill tells the initiator
    /// why; an allowed kill restarts the imposter's cooldown, tells them it
    /// succeeded, and kills the target, telling them who did it. It reads the
    /// clock once, so it holds for some elapsed time since the initiator's
    /// last kill, measured against the initiator's own kill cooldown. A fault
    /// changes nothing.
    pub fn handle_kill(&mut self, initiator: u128, target: u128, out: &mut Vec<Effect>) -> (r: Result<(), GameFault>)
        requires
            old(self).wf(),
        ensures
            final(self).wf(),
            exists|elapsed: u128, cooldown: u128|
                kill_outcome(
                    *old(self),
                    *final(self),
                    old(out)@,
                    final(out)@,
                    initiator,
                    target,
                    elapsed as int,
                    cooldown as int,
                    r,
                ),
    {
        let ghost g0 = *self;
        let ghost o0 = out@;
        let ghost ps = self.players@;
        let (elapsed, cooldown) = self.kill_timing(initiator);
        let verdict = match self.kill_check(initiator, target, elapsed, cooldown) {
            Err(f) => {
                assert(kill_outcome(g0, *self, o0, out@, initiator, target, elapsed as int, cooldown as int, Err(f)));
                return Err(f);
            },
            Ok(v) => v,
        };
        let ki = match self.find_player(initiator) {
            Some(k) => k,
            None => {
                proof {
                    assert(false);
                }
                return Ok(());
            },
        };
        if let Some(text) = verdict {
            let ghost s = text;
            let m = OutgoingWebsocketMessage::InvalidAction(text);
            self.send_to_player(ki, m, out);
            proof {
                lemma_one_received_keeps(ps, self.players@, ki as int, seq![m]);
                assert(kill_done(g0, *self, o0, out@, initiator, target, elapsed as int, cooldown as int));
                assert(kill_outcome(g0, *self, o0, out@, initiator, target, elapsed as int, cooldown as int, Ok(())));
            }
            return Ok(());
        }
        proof {
            lemma_index_of(ps, ki as int, initiator);
        }
        let now = instant_now();
        self.complete_kill(initiator, target, now, out);
        proof {
            assert(kill_done(g0, *self, o0, out@, initiator, target, elapsed as int, cooldown as int));
            assert(kill_outcome(g0, *self, o0, out@, initiator, target, elapsed as int, cooldown as int, Ok(())));
        }
        Ok(())
    }

    /// Carries out a kill that is allowed: the imposter `initiator`'s
    /// cooldown starts again at the clock reading `now` and they are told the
    /// kill succeeded; the crewmate `target` dies and is told who killed them.
    pub fn complete_kill(&mut self, initiator: u128, target: u128, now: Instant, out: &mut Vec<Effect>)
        requires
            old(self).wf(),
            has_player(old(self).players(), initiator),
            has_player(old(self).players(), target),
            player_with(old(self).players(), initiator).is_imposter(),
            player_with(old(self).players(), target).is_crewmate(),
        ensures
            final(self).wf(),
            same_setting(*old(self), *final(self)),
            kill_applied(old(self).players(), final(self).players(), old(out)@, final(out)@, initiator, target, now),
    {
        let ghost ps = self.players@;
        let ki = match self.find_player(initiator) {
            Some(k) => k,
            None => {
                proof {
                    assert(false);
                }
                return;
            },
        };
        let kt = match self.find_player(target) {
            Some(k) => k,
            None => {
                proof {
                    assert(false);
                }
                return;
            },
        };
        let role = self.players[ki].role;
        if let Some(Role::Imposter(imposter)) = role {
            self.players[ki].role = Some(Role::Imposter(imposter.restarted_at(now)));
        }
        let ghost ps1 = self.players@;
        self.send_to_player(ki, OutgoingWebsocketMessage::SuccessfulKill(target), out);
        let ghost ps2 = self.players@;
        self.players[kt].alive = false;
        let ghost ps3 = self.players@;
        self.send_to_player(kt, OutgoingWebsocketMessage::PlayerDied(PlayerDied { killer: initiator }), out);
        proof {
            let fin = self.players@;
            assert(ki != kt);
            assert(fin.len() == ps.len());
            assert(ordered_by_id(fin)) by {
                assert forall|a: int, b: int| 0 <= a < b < fin.len() implies fin[a].id < fin[b].id by {
                    assert(fin[a].id == ps[a].id);
                    assert(fin[b].id == ps[b].id);
                }
            }
            assert forall|i: int| 0 <= i < ps.len() && i != ki && i != kt implies fin[i] == ps[i] by {
                assert(ps1[i] == ps[i]);
                assert(ps2[i] == ps1[i]);
                assert(ps3[i] == ps2[i]);
            }
        }
    }

    /// `initiator` votes for `target` (`None` abstains) in the open meeting.
    pub fn handle_vote(&mut self, initiator: u128, target: Option<u128>, out: &mut Vec<Effect>) -> (r: Result<(), GameFault>)
        requires
            old(self).wf(),
        ensures
            final(self).wf(),
            vote_outcome(*old(self), *final(self), old(out)@, final(out)@, initiator, target, r),
    {
        let ghost g0 = *self;
        let ghost o0 = out@;
        let mut meeting = match self.meeting.take() {
            None => {
                return Ok(());
            },
            Some(m) => m,
        };
        meeting.add_vote(initiator, target);
        let ghost m1 = meeting;
        if meeting.ballot_count() > u32::MAX as usize {
            self.meeting = Some(meeting);
            assert(self.players() == g0.players());
            return Err(GameFault::TooManyVotes);
        }
        let all_voted = meeting.all_players_voted();
        self.meeting = Some(meeting);
        if all_voted {
            let r = self.end_meeting(out);
            proof {
                if r is Err {
                    assert(self.players() == g0.players());
                }
            }
            r
        } else {
            assert(self.players() == g0.players());
            Ok(())
        }
    }

    /// `initiator` reports the body of `corpse`.
    pub fn handle_report(&mut self, initiator: u128, corpse: u128, out: &mut Vec<Effect>) -> (r: Result<(), GameFault>)
        requires
            old(self).wf(),
        ensures
            final(self).wf(),
            report_outcome(*old(self), *final(self), old(out)@, final(out)@, initiator, corpse, r),
    {
        let ghost g0 = *self;
        let ghost ps = self.players@;
        let kc = match self.find_player(corpse) {
            Some(k) => k,
            None => {
                return Err(GameFault::UnknownPlayer(corpse));
            },
        };
        if self.players[kc].alive {
            let ki = match self.find_player(initiator) {
                Some(k) => k,
                None => {
                    return Err(GameFault::UnknownPlayer(initiator));
                },
            };
            let text = "You cannot report this body, they are alive!".to_string();
            let ghost s = text;
            let m = OutgoingWebsocketMessage::InvalidAction(text);
            self.send_to_player(ki, m, out);
            proof {
                lemma_one_received_keeps(ps, self.players@, ki as int, seq![m]);
            }
            return Ok(());
        }
        let br = OutgoingWebsocketMessage::BodyReported(BodyReported { corpse, initiator });
        self.send_message_to_all_users(br, out);
        proof {
            lemma_all_received_ordered(ps, self.players@, seq![br]);
            assert forall|i: int| 0 <= i < ps.len() implies (#[trigger] ps[i]).alive == self.players@[i].alive by {
                assert(received(ps[i], self.players@[i], seq![br]));
            }
            lemma_filter_len_agrees(ps, self.players@, is_alive());
        }
        let ghost o_mid = out@;
        self.start_meeting(out);
        assert(out@ =~= o_mid + seq![Effect::EndVotingAfter { secs: VOTING_TIME_SECS }]);
        Ok(())
    }

    /// `initiator` calls an emergency meeting: everybody is told, and a
    /// meeting opens.
    pub fn handle_emergency_meeting(&mut self, initiator: u128, out: &mut Vec<Effect>)
        requires
            old(self).wf(),
        ensures
            final(self).wf(),
            emergency_outcome(*old(self), *final(self), old(out)@, final(out)@, initiator),
    {
        let ghost ps = self.players@;
        let em = OutgoingWebsocketMessage::EmergencyMeetingCalled(EmergencyMeetingCalled { initiator });
        self.send_message_to_all_users(em, out);
        proof {
            lemma_all_received_ordered(ps, self.players@, seq![em]);
            assert forall|i: int| 0 <= i < ps.len() implies (#[trigger] ps[i]).alive == self.players@[i].alive by {
                assert(received(ps[i], self.players@[i], seq![em]));
            }
            lemma_filter_len_agrees(ps, self.players@, is_alive());
        }
        let ghost o_mid = out@;
        self.start_meeting(out);
        assert(out@ =~= o_mid + seq![Effect::EndVotingAfter { secs: VOTING_TIME_SECS }]);
    }

    /// `initiator` chooses `color`.
    pub fn handle_choose_color(&mut self, initiator: u128, color: String, out: &mut Vec<Effect>) -> (r: Result<(), GameFault>)
        requires
            old(self).wf(),
        ensures
            final(self).wf(),
            color_outcome(*old(self), *final(self), old(out)@, final(out)@, initiator, color, r),
    {
        let ghost ps = self.players@;
        let k = match self.find_player(initiator) {
            Some(k) => k,
            None => {
                return Err(GameFault::UnknownPlayer(initiator));
            },
        };
        self.players[k].set_color(color);
        let ghost ps1 = self.players@;
        proof {
            assert(ps1 =~= ps.update(k as int, with_color(ps[k as int], color)));
            assert(ordered_by_id(ps1));
        }
        let player = &self.players[k];
        let msg = OutgoingWebsocketMessage::PlayerStatus(
            PlayerStatus {
                player: PlayerSerializable::generate_for_user(player, &initiator),
                status: PlayerConnectionStatus::Existing,
            },
        );
        self.send_message_to_all_users(msg, out);
        proof {
            lemma_all_received_ordered(ps1, self.players@, seq![msg]);
        }
        Ok(())
    }

    /// Starts the game: deals roles at random (the number of imposters
    /// depends on the number of players), tells each player their role, then
    /// tells everybody the game has started. Fails, changing nothing,
    /// without players.
    ///
    /// Imposters are drawn by index with the game's generator, redrawing
    /// indices already chosen. Draws stop after `u64::MAX` of them; should
    /// imposters still be missing then, the first players not yet chosen
    /// become imposters.
    pub fn handle_start_game(&mut self, msg: StartGame, out: &mut Vec<Effect>) -> (r: Result<(), GameFault>)
        requires
            old(self).wf(),
        ensures
            final(self).wf(),
            start_outcome(*old(self), *final(self), old(out)@, final(out)@, r),
    {
        let ghost g0 = *self;
        let ghost o0 = out@;
        let ghost ps = self.players@;
        if self.players.len() == 0 {
            return Err(GameFault::NoPlayers);
        }
        self.state = GameStateEnum::InGame;
        let player_count = self.players.len();
        let imposter_count = get_imposter_count(player_count);
        // The imposters chosen so far, by position among the players (who are
        // drawn by position).
        let mut chosen: Vec<bool> = Vec::new();
        let mut i: usize = 0;
        while i < player_count
            invariant
                i <= player_count,
                chosen@.len() == i,
                forall|j: int| 0 <= j < i ==> !chosen@[j],
                count_true(chosen@) == 0,
            decreases player_count - i,
        {
            let ghost prev = chosen@;
            chosen.push(false);
            i = i + 1;
            assert(chosen@.drop_last() =~= prev);
        }
        let ghost c0 = chosen@;
        assert(c0 =~= Seq::new(player_count as nat, |t: int| false));
        let mut remaining = imposter_count;
        let mut draws: u64 = 0;
        let ghost mut drawn: Seq<usize> = Seq::empty();
        while remaining > 0 && draws < u64::MAX
            invariant
                chosen@.len() == player_count,
                player_count > 0,
                imposter_count <= player_count,
                remaining <= imposter_count,
                count_true(chosen@) + remaining == imposter_count,
                drawn.len() == draws,
                forall|t: int| 0 <= t < drawn.len() ==> drawn[t] < player_count,
                (chosen@, remaining as nat) == after_draws(c0, imposter_count as nat, drawn),
                self.players@ == ps,
                self.kill_cooldown == g0.kill_cooldown(),
                self.state == GameStateEnum::InGame,
                self.meeting == g0.meeting(),
            decreases u64::MAX - draws,
        {
            let index = draw_below(&mut self.rng, player_count);
            draws = draws + 1;
            let ghost before = chosen@;
            let ghost drawn0 = drawn;
            proof {
                drawn = drawn.push(index);
                assert(drawn.drop_last() =~= drawn0);
                if !before[index as int] {
                    lemma_count_set(before, index as int);
                }
            }
            remaining = choose_drawn(&mut chosen, remaining, index);
        }
        let ghost c1 = chosen@;
        let ghost r1 = remaining as nat;
        proof {
            lemma_count_total(chosen@);
            assert(chosen@.subrange(0, player_count as int) =~= chosen@);
        }
        let mut j: usize = 0;
        while remaining > 0 && j < player_count
            invariant
                chosen@.len() == player_count,
                j <= player_count,
                remaining <= imposter_count,
                count_true(chosen@) + remaining == imposter_count,
                remaining <= count_false(chosen@.subrange(j as int, player_count as int)),
                (chosen@, remaining as nat) == fill_first(c1, r1, j as nat),
                self.players@ == ps,
                self.kill_cooldown == g0.kill_cooldown(),
                self.state == GameStateEnum::InGame,
                self.meeting == g0.meeting(),
            decreases player_count - j,
        {
            proof {
                let t = chosen@.subrange(j as int, player_count as int);
                lemma_count_split(t, 0);
                assert(t.subrange(1, t.len() as int) =~= chosen@.subrange(j + 1, player_count as int));
                assert(t.subrange(0, 0) =~= Seq::<bool>::empty());
                if !chosen@[j as int] {
                    lemma_count_set(chosen@, j as int);
                    assert(chosen@.update(j as int, true).subrange(j + 1, player_count as int)
                        =~= chosen@.subrange(j + 1, player_count as int));
                }
            }
            remaining = choose_drawn(&mut chosen, remaining, j);
            j = j + 1;
        }
        proof {
            if remaining > 0 {
                assert(chosen@.subrange(player_count as int, player_count as int) =~= Seq::<bool>::empty());
            }
            if j < player_count {
                lemma_fill_first_done(c1, r1, j as nat, player_count as nat);
            }
            assert(chosen@ == fill_first(c1, r1, player_count as nat).0);
        }
        let ghost roles = chosen@.map_values(
            |b: bool| if b {
                RoleAssignment::Imposter
            } else {
                RoleAssignment::Crewmate
            },
        );
        let ghost o1 = out@;
        let mut i: usize = 0;
        while i < player_count
            invariant
                i <= player_count,
                chosen@.len() == player_count,
                roles.len() == player_count,
                ps.len() == player_count,
                forall|t: int| 0 <= t < player_count ==> roles[t] == (if chosen@[t] {
                    RoleAssignment::Imposter
                } else {
                    RoleAssignment::Crewmate
                }),
                self.players@.len() == player_count,
                self.kill_cooldown == g0.kill_cooldown(),
                self.state == GameStateEnum::InGame,
                self.meeting == g0.meeting(),
                forall|t: int|
                    0 <= t < i ==> {
                        &&& (#[trigger] self.players@[t]).role matches Some(role) && assignment_of(role) == roles[t]
                        &&& (self.players@[t].role matches Some(Role::Imposter(x)) ==> x.cooldown() == g0.kill_cooldown())
                        &&& received(
                            Player { role: self.players@[t].role, ..ps[t] },
                            self.players@[t],
                            seq![OutgoingWebsocketMessage::PlayerRole(SetRole { role: roles[t], id: ps[t].id })],
                        )
                    },
                forall|t: int| i <= t < player_count ==> #[trigger] self.players@[t] == ps[t],
                out@ == o1 + role_deal_effects(ps.take(i as int), roles.take(i as int)),
            decreases player_count - i,
        {
            let role = if chosen[i] {
                RoleAssignment::Imposter
            } else {
                RoleAssignment::Crewmate
            };
            let kill_cooldown = self.kill_cooldown;
            let ghost before = self.players@;
            self.players[i].set_role(role, kill_cooldown, out);
            proof {
                let after = self.players@;
                assert(role == roles[i as int]);
                assert(before[i as int] == ps[i as int]);
                assert(after[i as int].previously_sent_messages@ =~= ps[i as int].previously_sent_messages@ + seq![OutgoingWebsocketMessage::PlayerRole(SetRole { role: roles[i as int], id: ps[i as int].id })]);
                assert(received(
                    Player { role: after[i as int].role, ..ps[i as int] },
                    after[i as int],
                    seq![OutgoingWebsocketMessage::PlayerRole(SetRole { role: roles[i as int], id: ps[i as int].id })],
                ));
                assert forall|t: int| 0 <= t < i implies after[t] == before[t] by {}
                assert(ps.take(i + 1).drop_last() =~= ps.take(i as int));
                assert(roles.take(i + 1).drop_last() =~= roles.take(i as int));
                assert(ps.take(i + 1).last() == ps[i as int]);
                assert(roles.take(i + 1).last() == roles[i as int]);
            }
            i = i + 1;
        }
        let ghost ps_r = self.players@;
        let started = OutgoingWebsocketMessage::GameState(GameState { state: GameStateEnum::InGame });
        self.send_message_to_all_users(started, out);
        proof {
            let fin = self.players@;
            assert(ps.take(player_count as int) =~= ps);
            assert(roles.take(player_count as int) =~= roles);
            assert forall|t: int| 0 <= t < fin.len() implies (#[trigger] fin[t]).role == ps_r[t].role && fin[t].id == ps[t].id by {
                assert(received(ps_r[t], fin[t], seq![started]));
            }
            assert(fin.map_values(|p: Player| assignment_of(p.role->0)) =~= roles);
            assert forall|t: int| 0 <= t < fin.len() implies (#[trigger] fin[t]).is_imposter() == chosen@[t] by {
                assert(received(ps_r[t], fin[t], seq![started]));
            }
            lemma_imposters_counted(fin, chosen@);
            assert(dealt_from(player_count as nat, imposter_count as nat, fin, drawn));
            assert(ordered_by_id(fin));
            assert forall|t: int| 0 <= t < fin.len() implies received(
                Player { role: fin[t].role, ..ps[t] },
                #[trigger] fin[t],
                seq![
                    OutgoingWebsocketMessage::PlayerRole(
                        SetRole { role: assignment_of(fin[t].role->0), id: ps[t].id },
                    ),
                    started,
                ],
            ) by {
                assert(received(ps_r[t], fin[t], seq![started]));
                assert(fin[t].previously_sent_messages@ =~= ps[t].previously_sent_messages@ + seq![
                    OutgoingWebsocketMessage::PlayerRole(SetRole { role: roles[t], id: ps[t].id }),
                    started,
                ]);
            }
            lemma_received_same_links(ps_r, fin, seq![started]);
            assert(same_links(ps, ps_r)) by {
                assert forall|t: int| 0 <= t < ps.len() implies (#[trigger] ps[t]).id == ps_r[t].id && ps[t].websocket_open
                    == ps_r[t].websocket_open by {
                    assert(received(Player { role: ps_r[t].role, ..ps[t] }, ps_r[t], seq![OutgoingWebsocketMessage::PlayerRole(SetRole { role: roles[t], id: ps[t].id })]));
                }
            }
            lemma_broadcast_effects_stable(ps, ps_r, started);
            assert(roles_assigned(fin));
        }
        Ok(())
    }

    /// Takes the game back to the lobby: tells everybody, closes every open
    /// websocket, and removes all players.
    pub fn handle_reset_game(&mut self, msg: ResetGame, out: &mut Vec<Effect>)
        requires
            old(self).wf(),
        ensures
            final(self).wf(),
            final(self).state() == GameStateEnum::Lobby,
            final(self).players().len() == 0,
            final(self).meeting() == old(self).meeting(),
            final(self).kill_cooldown() == old(self).kill_cooldown(),
            final(self).rng_state() == old(self).rng_state(),
            final(out)@ == old(out)@ + broadcast_effects(
                old(self).players(),
                OutgoingWebsocketMessage::GameState(GameState { state: GameStateEnum::Reset }),
            ) + close_effects(old(self).players()),
    {
        let ghost ps = self.players@;
        self.state = GameStateEnum::Lobby;
        let reset = OutgoingWebsocketMessage::GameState(GameState { state: GameStateEnum::Reset });
        self.send_message_to_all_users(reset, out);
        let ghost ps1 = self.players@;
        let ghost o1 = out@;
        proof {
            lemma_received_same_links(ps, ps1, seq![reset]);
        }
        let n = self.players.len();
        let mut i: usize = 0;
        while i < n
            invariant
                i <= n,
                n == ps1.len(),
                self.players@.len() == n,
                forall|t: int| i <= t < n ==> #[trigger] self.players@[t] == ps1[t],
                out@ == o1 + close_effects(ps1.take(i as int)),
                self.meeting == old(self).meeting,
                self.state == GameStateEnum::Lobby,
                self.kill_cooldown == old(self).kill_cooldown,
                self.rng == old(self).rng,
            decreases n - i,
        {
            self.players[i].close_websocket(out);
            proof {
                assert(ps1.take(i + 1).drop_last() =~= ps1.take(i as int));
                assert(ps1.take(i + 1).last() == ps1[i as int]);
            }
            i = i + 1;
        }
        self.players.clear();
        proof {
            assert(ps1.take(n as int) =~= ps1);
            lemma_close_effects_stable(ps, ps1);
        }
    }

    /// Ends the voting of the open meeting; see `end_meeting`.
    pub fn handle_end_voting(&mut self, msg: EndVoting, out: &mut Vec<Effect>) -> (r: Result<(), GameFault>)
        requires
            old(self).wf(),
        ensures
            final(self).wf(),
            end_outcome(*old(self), *final(self), old(out)@, final(out)@, r),
    {
        self.end_meeting(out)
    }

    /// Opens a meeting; see `start_meeting`.
    pub fn handle_start_meeting(&mut self, msg: StartMeeting, out: &mut Vec<Effect>)
        requires
            old(self).wf(),
        ensures
            final(self).wf(),
            final(self).players() == old(self).players(),
            final(self).state() == old(self).state(),
            final(self).kill_cooldown() == old(self).kill_cooldown(),
            final(self).rng_state() == old(self).rng_state(),
            meeting_opened(old(self).players(), *final(self)),
            final(out)@ == old(out)@.push(Effect::EndVotingAfter { secs: VOTING_TIME_SECS }),
    {
        self.start_meeting(out);
    }

    /// Answers a player's websocket message: a kill (followed by the news of
    /// how the game goes on), a body report, a vote, an emergency meeting,
    /// or a change of colour.
    pub fn handle_incoming_message(&mut self, msg: IncomingMessageInternal, out: &mut Vec<Effect>) -> (r: Result<(), GameFault>)
        requires
            old(self).wf(),
        ensures
            final(self).wf(),
            incoming_outcome(*old(self), *final(self), old(out)@, final(out)@, msg.initiator, msg.incoming, r),
    {
        let initiator = msg.initiator;
        match msg.incoming {
            IncomingWebsocketMessage::KillPlayer(kill) => {
                let ghost g0 = *self;
                let ghost o0 = out@;
                if let Some(id) = self.first_without_role() {
                    proof {
                        let i = choose|i: int|
                            0 <= i < self.players@.len() && self.players@[i].id == id && self.players@[i].role is None;
                        lemma_index_of(self.players@, i, id);
                    }
                    return Err(GameFault::RoleNotAssigned(id));
                }
                let r = self.handle_kill(initiator, kill.target, out);
                let ghost (elapsed, cooldown) = choose|elapsed: u128, cooldown: u128|
                    kill_outcome(g0, *self, o0, out@, initiator, kill.target, elapsed as int, cooldown as int, r);
                match r {
                    Err(f) => {
                        assert(kill_check_at(g0, *self, o0, out@, initiator, kill.target, elapsed, cooldown, r));
                        return Err(f);
                    },
                    Ok(_) => {},
                }
                let ghost gm = *self;
                let ghost om = out@;
                proof {
                    lemma_kill_keeps_roles(g0, gm, o0, om, initiator, kill.target, elapsed as int, cooldown as int);
                }
                self.notify_players_of_next_state(out);
                proof {
                    lemma_all_received_ordered(gm.players(), self.players(), seq![next_state_message(gm.players())]);
                    assert(kill_check_at(g0, *self, o0, out@, initiator, kill.target, elapsed, cooldown, Ok(())));
                }
                Ok(())
            },
            IncomingWebsocketMessage::ReportBody(report) => self.handle_report(initiator, report.corpse, out),
            IncomingWebsocketMessage::Vote(vote) => self.handle_vote(initiator, vote.target, out),
            IncomingWebsocketMessage::CallEmergencyMeeting => {
                self.handle_emergency_meeting(initiator, out);
                Ok(())
            },
            IncomingWebsocketMessage::ChooseColor(choose_color) => self.handle_choose_color(
                initiator,
                choose_color.color,
                out,
            ),
        }
    }
}

/// How many imposters a game of `player_count` players has: one for up to
/// four players, two for up to seven, three beyond.
pub fn get_imposter_count(player_count: usize) -> (r: usize)
    ensures
        r == imposter_count(player_count as int),
{
    if player_count <= 4 {
        return 1;
    } else if player_count <= 7 {
        return 2;
    } else {
        return 3;
    }
}

/// While the players fit a `u32` count, the imposters have won exactly when
/// no crewmate is alive, the crewmates exactly when some crewmate but no
/// imposter is alive, and nobody yet while both sides have somebody alive.
pub proof fn lemma_winner_meaning(ps: Seq<Player>)
    requires
        ps.len() <= u32::MAX,
    ensures
        (winner(ps) == Some(Winner::Imposters)) <==> !exists|i: int|
            0 <= i < ps.len() && (#[trigger] ps[i]).alive && ps[i].is_crewmate(),
        (winner(ps) == Some(Winner::Crewmates)) <==> (exists|i: int|
            0 <= i < ps.len() && (#[trigger] ps[i]).alive && ps[i].is_crewmate()) && !exists|j: int|
            0 <= j < ps.len() && (#[trigger] ps[j]).alive && ps[j].is_imposter(),
        (winner(ps) is None) <==> (exists|i: int|
            0 <= i < ps.len() && (#[trigger] ps[i]).alive && ps[i].is_crewmate()) && (exists|j: int|
            0 <= j < ps.len() && (#[trigger] ps[j]).alive && ps[j].is_imposter()),
{
    lemma_filter_empty_iff(ps, is_alive_crewmate());
    lemma_filter_empty_iff(ps, is_alive_imposter());
    ps.lemma_filter_len(is_alive_crewmate());
    ps.lemma_filter_len(is_alive_imposter());
}

/// Once every player has a role, the living players are the living
/// crewmates together with the living imposters; while the players fit a
/// `u32` count, so do the counts the game keeps of them.
pub proof fn lemma_alive_split(ps: Seq<Player>)
    requires
        roles_assigned(ps),
    ensures
        ps.filter(is_alive()).len() == ps.filter(is_alive_crewmate()).len() + ps.filter(is_alive_imposter()).len(),
        ps.len() <= u32::MAX ==> ps.filter(is_alive()).len() as u32 == ps.filter(is_alive_crewmate()).len() as u32
            + ps.filter(is_alive_imposter()).len() as u32,
    decreases ps.len(),
{
    reveal(Seq::filter);
    if ps.len() > 0 {
        let q = ps.drop_last();
        assert(roles_assigned(q)) by {
            assert forall|i: int| 0 <= i < q.len() implies (#[trigger] q[i]).role is Some by {
                assert(q[i] == ps[i]);
            }
        }
        lemma_alive_split(q);
        assert(ps.last().role is Some) by {
            assert(ps[ps.len() - 1].role is Some);
        }
    }
    ps.lemma_filter_len(is_alive());
}

/// One imposter for a game of one to four players, one more from five
/// players on and one more again from eight: the count starts at one and
/// grows by one exactly when the players reach five and when they reach
/// eight, stays between one and three, and leaves the imposters a minority
/// from three players on.
pub proof fn lemma_imposter_count_steps(n: int)
    requires
        n >= 1,
    ensures
        imposter_count(1) == 1,
        imposter_count(n + 1) == imposter_count(n) + if n + 1 == 5 || n + 1 == 8 {
            1int
        } else {
            0int
        },
        1 <= imposter_count(n) <= 3,
        n >= 3 ==> 2 * imposter_count(n) < n,
{
}

/// An imposter who connects is told their own role and then, in order of
/// identifier, that each imposter (themselves included) is one: every
/// imposter among the players is named.
pub proof fn lemma_imposter_learns_imposters(ps: Seq<Player>, id: u128, state: GameStateEnum, q: Player)
    requires
        ordered_by_id(ps),
        has_player(ps, id),
        player_with(ps, id).is_imposter(),
        ps.contains(q),
        q.is_imposter(),
    ensures
        roles_msgs(ps, id).len() == 1 + ps.filter(is_imposter()).len(),
        roles_msgs(ps, id)[0] == OutgoingWebsocketMessage::PlayerRole(
            SetRole { role: RoleAssignment::Imposter, id },
        ),
        game_status_msgs(ps, id, state).contains(
            OutgoingWebsocketMessage::PlayerRole(SetRole { role: RoleAssignment::Imposter, id: q.id }),
        ),
{
    let i = choose|i: int| 0 <= i < ps.len() && ps[i] == q;
    ps.lemma_filter_contains(is_imposter(), i);
    let fi = ps.filter(is_imposter());
    let j = choose|j: int| 0 <= j < fi.len() && fi[j] == q;
    let msgs = imposter_role_msgs(ps);
    let m = OutgoingWebsocketMessage::PlayerRole(SetRole { role: RoleAssignment::Imposter, id: q.id });
    assert(msgs[j] == m);
    let k = index_of(ps, id);
    let rm = roles_msgs(ps, id);
    assert(rm[1 + j] == m);
    let g = game_status_msgs(ps, id, state);
    let o = others_status(ps, id);
    assert(g[o.len() + 1 + j] == m);
}

/// A filter is empty exactly when no element satisfies the predicate.
proof fn lemma_filter_empty_iff(ps: Seq<Player>, f: spec_fn(Player) -> bool)
    ensures
        (ps.filter(f).len() == 0) <==> !exists|i: int| 0 <= i < ps.len() && f(#[trigger] ps[i]),
    decreases ps.len(),
{
    reveal(Seq::filter);
    if ps.len() > 0 {
        lemma_filter_empty_iff(ps.drop_last(), f);
        if exists|i: int| 0 <= i < ps.drop_last().len() && f(#[trigger] ps.drop_last()[i]) {
            let i = choose|i: int| 0 <= i < ps.drop_last().len() && f(#[trigger] ps.drop_last()[i]);
            assert(f(ps[i]));
        }
        if exists|i: int| 0 <= i < ps.len() && f(#[trigger] ps[i]) {
            let i = choose|i: int| 0 <= i < ps.len() && f(#[trigger] ps[i]);
            if i < ps.len() - 1 {
                assert(f(ps.drop_last()[i]));
            }
        }
    }
}

} // verus!
