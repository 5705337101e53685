//! The server's connection registry, open-games index, and session state
//! machine.
//!
//! The state machine is pure: it never touches a socket.  Each step returns a
//! `Directive` telling the caller which connections to drop and which
//! messages to write; a failed tracked write is reported back through
//! `remove`, and the two stages of pairing report their `Start` writes
//! through `pairing_creator_sent` and `pairing_joiner_sent`.

use vstd::prelude::*;
use vstd::pervasive::VecAdditionalExecFns;
use std::collections::HashMap;
use crate::game::{cmp_sign, Game, MoveEffect};
use crate::msg::{ClientMessage, ServerMessage, StartData, MAX_TURNS, TOTAL_POINTS};

verus! {

broadcast use vstd::std_specs::hash::group_hash_axioms;

/// Most simultaneous connections the server will hold.
pub const MAX_CONNECTIONS: usize = 256;

/// One connection slot's place in the session lifecycle.
#[derive(Debug, Clone, Copy, PartialEq, Eq, Structural)]
pub enum SlotState {
    /// No connection occupies the slot.
    Vacant,
    /// Connected, no game affiliation.
    Idle,
    /// Opened a game under this join code; awaiting a partner.
    Waiting(u32),
    /// Paired with the partner slot over the game at this arena index.
    Playing { partner: usize, game: usize },
}

/// The partner recorded in a `Playing` state.
pub open spec fn partner_of(s: SlotState) -> usize {
    match s {
        SlotState::Playing { partner, .. } => partner,
        _ => 0,
    }
}

/// The game index recorded in a `Playing` state.
pub open spec fn game_of(s: SlotState) -> usize {
    match s {
        SlotState::Playing { game, .. } => game,
        _ => 0,
    }
}

/// The join code recorded in a `Waiting` state.
pub open spec fn code_of(s: SlotState) -> u32 {
    match s {
        SlotState::Waiting(c) => c,
        _ => 0,
    }
}

/// One message to write to one connection.
#[derive(Debug, Clone, Copy, PartialEq, Eq, Structural)]
pub struct Outgoing {
    pub to: usize,
    pub msg: ServerMessage,
}

/// The second half of a pairing in progress.
#[derive(Debug, Clone, Copy, PartialEq, Eq, Structural)]
pub enum Followup {
    /// Nothing more to do for this step.
    Done,
    /// Write `send` (the creator's `Start`) and report the result through
    /// `pairing_creator_sent`.
    AwaitCreatorStart { joiner: usize, creator: usize, send: Outgoing },
    /// Write `send` (the joiner's `Start`) and report the result through
    /// `pairing_joiner_sent`.
    AwaitJoinerStart { joiner: usize, creator: usize, send: Outgoing },
}

/// What the caller must do after a state step, in order: attempt the
/// best-effort `notices` (failures discarded), drop the connections in
/// `closes`, perform the tracked `sends` (report a failure by calling
/// `remove` on the recipient), then carry out the `next` follow-up.
pub struct Directive {
    pub notices: Vec<Outgoing>,
    pub closes: Vec<usize>,
    pub sends: Vec<Outgoing>,
    pub next: Followup,
}

impl Directive {
    fn empty() -> (d: Directive)
        ensures
            d.notices@ == Seq::<Outgoing>::empty(),
            d.closes@ == Seq::<usize>::empty(),
            d.sends@ == Seq::<Outgoing>::empty(),
            d.next is Done,
    {
        Directive { notices: Vec::new(), closes: Vec::new(), sends: Vec::new(), next: Followup::Done }
    }
}

/// The server's whole session state: one entry per connection slot, the
/// open-games index, and the arena of running games.
pub struct ServerState {
    slots: Vec<SlotState>,
    open_games: HashMap<u32, usize>,
    games: Vec<Option<Game>>,
}

impl ServerState {
    pub closed spec fn slots_view(self) -> Seq<SlotState> {
        self.slots@
    }

    pub closed spec fn open_map(self) -> Map<u32, usize> {
        self.open_games@
    }

    pub closed spec fn games_view(self) -> Seq<Option<Game>> {
        self.games@
    }

    pub open spec fn n_slots(self) -> nat {
        self.slots_view().len()
    }

    pub open spec fn slot(self, i: int) -> SlotState {
        self.slots_view()[i]
    }

    /// What must hold of one slot: a Waiting slot is indexed under its code,
    /// and a Playing slot's partner points back at it over the same live,
    /// well-formed game.
    pub open spec fn slot_ok(self, i: int) -> bool {
        match self.slot(i) {
            SlotState::Waiting(c) => self.open_map().dom().contains(c) && self.open_map()[c]
                == i as usize,
            SlotState::Playing { partner, game } => {
                &&& partner < self.n_slots()
                &&& partner != i
                &&& game < self.games_view().len()
                &&& self.slot(partner as int) == (SlotState::Playing {
                    partner: i as usize,
                    game,
                })
                &&& self.games_view()[game as int] is Some
                &&& self.games_view()[game as int].unwrap().wf()
            },
            _ => true,
        }
    }

    /// No two pairs share a game.
    pub open spec fn games_exclusive(self) -> bool {
        forall|i: int, j: int|
            (0 <= i < self.n_slots() && 0 <= j < self.n_slots() && i != j && (#[trigger] self.slot(
                i,
            )) is Playing && (#[trigger] self.slot(j)) is Playing && game_of(self.slot(i))
                == game_of(self.slot(j))) ==> partner_of(self.slot(i)) == j as usize
    }

    /// The server invariant.
    pub open spec fn wf(self) -> bool {
        &&& self.n_slots() <= MAX_CONNECTIONS
        &&& (forall|c: u32| #[trigger] self.open_map().dom().contains(c) ==> self.open_map()[c]
            < self.n_slots() && self.slot(self.open_map()[c] as int) == SlotState::Waiting(c))
        &&& (forall|i: int| 0 <= i < self.n_slots() ==> #[trigger] self.slot_ok(i))
        &&& self.games_exclusive()
    }

    pub fn new() -> (s: ServerState)
        ensures
            s.wf(),
            s.n_slots() == 0,
            s.open_map() == Map::<u32, usize>::empty(),
            s.games_view() == Seq::<Option<Game>>::empty(),
    {
        ServerState { slots: Vec::new(), open_games: HashMap::new(), games: Vec::new() }
    }

    /// Registers a new connection: the first vacant slot is reused, else a
    /// slot is appended, else (`None`) the server is full and the connection
    /// must be refused.  Existing slots are untouched either way.
    pub fn accept(&mut self) -> (r: Option<usize>)
        requires
            old(self).wf(),
        ensures
            final(self).wf(),
            final(self).open_map() == old(self).open_map(),
            final(self).games_view() == old(self).games_view(),
            (r is None <==> (old(self).n_slots() == MAX_CONNECTIONS && forall|i: int|
                0 <= i < old(self).n_slots() ==> old(self).slot(i) != SlotState::Vacant)),
            (r is None ==> *final(self) == *old(self)),
            (r matches Some(i) ==> {
                &&& i < final(self).n_slots()
                &&& final(self).slot(i as int) == SlotState::Idle
                &&& (forall|j: int| 0 <= j < i ==> old(self).slot(j) != SlotState::Vacant)
                &&& (i < old(self).n_slots() ==> old(self).slot(i as int) == SlotState::Vacant
                    && final(self).slots_view() == old(self).slots_view().update(
                    i as int,
                    SlotState::Idle,
                ))
                &&& (i == old(self).n_slots() ==> final(self).slots_view() == old(self).slots_view().push(SlotState::Idle))
                &&& forall|j: int|
                    0 <= j < old(self).n_slots() && j != i ==> #[trigger] final(self).slot(j)
                        == old(self).slot(j)
            }),
    {
        let n = self.slots.len();
        let mut k: usize = 0;
        while k < n
            invariant
                k <= n == self.slots@.len(),
                old(self).wf(),
                *self == *old(self),
                forall|i: int| 0 <= i < k ==> self.slots@[i] != SlotState::Vacant,
            decreases n - k,
        {
            let here = self.slots[k];
            if let SlotState::Vacant = here {
                self.slots.set(k, SlotState::Idle);
                proof {
                    lemma_still_wf_after_slot_update(*old(self), *self, k as int);
                }
                return Some(k);
            }
            k = k + 1;
        }
        if n < MAX_CONNECTIONS {
            self.slots.push(SlotState::Idle);
            proof {
                lemma_still_wf_after_slot_push(*old(self), *self);
            }
            Some(n)
        } else {
            None
        }
    }
    /// Closes a slot.  The slot becomes vacant; a Waiting slot's code leaves
    /// the open-games index; a Playing slot's partner is told
    /// `ConnectionLost` (best effort) and returns to Idle, and the shared
    /// game is dropped.  Out-of-range or vacant slots are left alone.
    pub fn remove(&mut self, id: usize) -> (d: Directive)
        requires
            old(self).wf(),
        ensures
            final(self).wf(),
            d.sends@ == Seq::<Outgoing>::empty(),
            d.next is Done,
            ((id >= old(self).n_slots() || old(self).slot(id as int) is Vacant) ==> *final(self)
                == *old(self) && d.closes@ == Seq::<usize>::empty() && d.notices@
                == Seq::<Outgoing>::empty()),
            ((id < old(self).n_slots() && !(old(self).slot(id as int) is Vacant)) ==> {
                &&& final(self).n_slots() == old(self).n_slots()
                &&& final(self).slot(id as int) == SlotState::Vacant
                &&& d.closes@ == seq![id]
                &&& (old(self).slot(id as int) matches SlotState::Waiting(c) ==> final(self).open_map() == old(self).open_map().remove(c) && d.notices@
                    == Seq::<Outgoing>::empty() && final(self).games_view() == old(self).games_view() && final(self).slots_view() == old(self).slots_view().update(
                    id as int,
                    SlotState::Vacant,
                ))
                &&& (old(self).slot(id as int) is Idle ==> final(self).open_map() == old(self).open_map() && d.notices@ == Seq::<Outgoing>::empty() && final(self).games_view()
                    == old(self).games_view() && final(self).slots_view() == old(self).slots_view().update(id as int, SlotState::Vacant))
                &&& (old(self).slot(id as int) matches SlotState::Playing { partner, game } ==> {
                    &&& final(self).open_map() == old(self).open_map()
                    &&& final(self).slots_view() == old(self).slots_view().update(
                        id as int,
                        SlotState::Vacant,
                    ).update(partner as int, SlotState::Idle)
                    &&& final(self).games_view() == old(self).games_view().update(
                        game as int,
                        None,
                    )
                    &&& d.notices@ == seq![
                        (Outgoing { to: partner, msg: ServerMessage::ConnectionLost }),
                    ]
                })
            }),
    {
        if id >= self.slots.len() {
            return Directive::empty();
        }
        let here = self.slots[id];
        match here {
            SlotState::Vacant => Directive::empty(),
            SlotState::Idle => {
                self.slots.set(id, SlotState::Vacant);
                proof {
                    lemma_still_wf_after_slot_update(*old(self), *self, id as int);
                }
                let mut d = Directive::empty();
                d.closes.push(id);
                proof {
                    assert(d.closes@ =~= seq![id]);
                }
                d
            },
            SlotState::Waiting(c) => {
                self.slots.set(id, SlotState::Vacant);
                self.open_games.remove(&c);
                proof {
                    lemma_wf_after_remove_waiting(*old(self), *self, id as int, c);
                }
                let mut d = Directive::empty();
                d.closes.push(id);
                proof {
                    assert(d.closes@ =~= seq![id]);
                }
                d
            },
            SlotState::Playing { partner, game } => {
                proof {
                    assert(old(self).slot_ok(id as int));
                }
                self.slots.set(id, SlotState::Vacant);
                self.slots.set(partner, SlotState::Idle);
                self.games.set(game, None);
                proof {
                    lemma_wf_after_remove_playing(*old(self), *self, id as int);
                }
                let mut d = Directive::empty();
                d.closes.push(id);
                d.notices.push(Outgoing { to: partner, msg: ServerMessage::ConnectionLost });
                proof {
                    assert(d.closes@ =~= seq![id]);
                    assert(d.notices@ =~= seq![
                        (Outgoing { to: partner, msg: ServerMessage::ConnectionLost }),
                    ]);
                }
                d
            },
        }
    }

    /// Handles one decoded message from a connection, per the session state
    /// machine: Idle slots may `Create` or `Join`, Playing slots may `Move`,
    /// everything else is a protocol violation that closes the offender.
    pub fn handle_message(&mut self, from: usize, msg: ClientMessage) -> (d: Directive)
        requires
            old(self).wf(),
        ensures
            final(self).wf(),
            ((from >= old(self).n_slots() || old(self).slot(from as int) is Vacant) ==> untouched(
                *old(self),
                *final(self),
                d,
            )),
            (from < old(self).n_slots() && old(self).slot(from as int) is Waiting ==> closes_with(
                *old(self),
                *final(self),
                d,
                from as int,
                ServerMessage::ProtocolError,
            )),
            ((from < old(self).n_slots() && old(self).slot(from as int) is Idle && msg is Create)
                ==> (exists|c: u32|
                created_with(*old(self), *final(self), d, from as int, c)) || closes_with(
                *old(self),
                *final(self),
                d,
                from as int,
                ServerMessage::ServerError,
            )),
            ((from < old(self).n_slots() && old(self).slot(from as int) is Idle) ==> (msg
                matches ClientMessage::Join(code) ==> {
                &&& (old(self).open_map().dom().contains(code) ==> pairing_begun(
                    *old(self),
                    *final(self),
                    d,
                    from as int,
                    code,
                ))
                &&& (!old(self).open_map().dom().contains(code) ==> join_failed(
                    *old(self),
                    *final(self),
                    d,
                    from as int,
                ))
            })),
            ((from < old(self).n_slots() && old(self).slot(from as int) is Idle && msg is Move)
                ==> closes_with(
                *old(self),
                *final(self),
                d,
                from as int,
                ServerMessage::ProtocolError,
            )),
            ((from < old(self).n_slots() && old(self).slot(from as int) is Playing && !(msg
                is Move)) ==> closes_with(
                *old(self),
                *final(self),
                d,
                from as int,
                ServerMessage::ProtocolError,
            )),
            ((from < old(self).n_slots() && old(self).slot(from as int) is Playing) ==> (msg
                matches ClientMessage::Move(n) ==> {
                let g_old = old(self).games_view()[game_of(old(self).slot(from as int)) as int].unwrap();
                let side: int = if from < partner_of(old(self).slot(from as int)) {
                    0
                } else {
                    1
                };
                &&& (!g_old.valid_move(side, n) ==> closes_with(
                    *old(self),
                    *final(self),
                    d,
                    from as int,
                    ServerMessage::ProtocolError,
                ))
                &&& (g_old.valid_move(side, n) ==> move_applied(
                    *old(self),
                    *final(self),
                    d,
                    from as int,
                    n,
                ))
            })),
    {
        if from >= self.slots.len() {
            return Directive::empty();
        }
        let here = self.slots[from];
        match here {
            SlotState::Vacant => Directive::empty(),
            SlotState::Waiting(_) => self.reject(from, ServerMessage::ProtocolError),
            SlotState::Idle => match msg {
                ClientMessage::Create => self.create_game(from),
                ClientMessage::Join(code) => {
                    match self.open_games.get(&code) {
                        Some(creator_ref) => {
                            let creator = *creator_ref;
                            let mut d = Directive::empty();
                            d.next = Followup::AwaitCreatorStart {
                                joiner: from,
                                creator,
                                send: Outgoing { to: creator, msg: start_message() },
                            };
                            d
                        },
                        None => {
                            let mut d = Directive::empty();
                            d.sends.push(Outgoing { to: from, msg: ServerMessage::JoinFail });
                            proof {
                                assert(d.sends@ =~= seq![
                                    (Outgoing { to: from, msg: ServerMessage::JoinFail }),
                                ]);
                            }
                            d
                        },
                    }
                },
                ClientMessage::Move(_) => self.reject(from, ServerMessage::ProtocolError),
            },
            SlotState::Playing { partner, game } => match msg {
                ClientMessage::Move(n) => self.playing_move(from, partner, game, n),
                _ => self.reject(from, ServerMessage::ProtocolError),
            },
        }
    }

    /// Sends `m` to the offender and closes it, with the usual partner
    /// handling of `remove`.
    fn reject(&mut self, from: usize, m: ServerMessage) -> (d: Directive)
        requires
            old(self).wf(),
            from < old(self).n_slots(),
            !(old(self).slot(from as int) is Vacant),
        ensures
            final(self).wf(),
            closes_with(*old(self), *final(self), d, from as int, m),
    {
        let mut head: Vec<Outgoing> = Vec::new();
        head.push(Outgoing { to: from, msg: m });
        let mut rest = self.remove(from);
        head.append(&mut rest.notices);
        let d = Directive { notices: head, closes: rest.closes, sends: rest.sends, next: rest.next };
        proof {
            if old(self).slot(from as int) is Playing {
                assert(old(self).slot_ok(from as int));
                let q = partner_of(old(self).slot(from as int));
                assert(d.notices@ =~= seq![
                    (Outgoing { to: from, msg: m }),
                    (Outgoing { to: q, msg: ServerMessage::ConnectionLost }),
                ]);
            } else {
                assert(d.notices@ =~= seq![(Outgoing { to: from, msg: m })]);
            }
        }
        d
    }

    /// Applies one join-code candidate for an Idle slot.  A code not yet in
    /// use opens the game under exactly that code: the slot turns Waiting,
    /// the code is indexed, and `Created(code)` is on its way.  A code
    /// already in use changes nothing (`None`), and the caller draws again.
    pub fn apply_code(&mut self, from: usize, code: u32) -> (r: Option<Directive>)
        requires
            old(self).wf(),
            from < old(self).n_slots(),
            old(self).slot(from as int) is Idle,
        ensures
            final(self).wf(),
            (r is Some <==> !old(self).open_map().dom().contains(code)),
            (r matches Some(d) ==> created_with(*old(self), *final(self), d, from as int, code)),
            (r is None ==> *final(self) == *old(self)),
    {
        if !self.open_games.contains_key(&code) {
            self.slots.set(from, SlotState::Waiting(code));
            self.open_games.insert(code, from);
            proof {
                lemma_wf_after_create(*old(self), *self, from as int, code);
            }
            let mut d = Directive::empty();
            d.sends.push(Outgoing { to: from, msg: ServerMessage::Created(code) });
            proof {
                assert(d.sends@ =~= seq![
                    (Outgoing { to: from, msg: ServerMessage::Created(code) }),
                ]);
                assert(created_with(*old(self), *self, d, from as int, code));
            }
            Some(d)
        } else {
            None
        }
    }

    /// Opens a game for an Idle slot: draws random codes and applies the
    /// first fresh one through `apply_code`.  Whether any draw succeeds is
    /// the random source's to decide; if every draw collides (all but
    /// impossible while the index is small) the slot is closed with
    /// `ServerError`.
    fn create_game(&mut self, from: usize) -> (d: Directive)
        requires
            old(self).wf(),
            from < old(self).n_slots(),
            old(self).slot(from as int) is Idle,
        ensures
            final(self).wf(),
            (exists|c: u32| created_with(*old(self), *final(self), d, from as int, c))
                || closes_with(
                *old(self),
                *final(self),
                d,
                from as int,
                ServerMessage::ServerError,
            ),
    {
        let mut attempts: usize = 0;
        while attempts < 32
            invariant
                old(self).wf(),
                *self == *old(self),
                from < old(self).n_slots(),
                old(self).slot(from as int) is Idle,
            decreases 32 - attempts,
        {
            let code = draw_code();
            match self.apply_code(from, code) {
                Some(d) => {
                    return d;
                },
                None => {},
            }
            attempts = attempts + 1;
        }
        self.reject(from, ServerMessage::ServerError)
    }

    /// Applies `Move(n)` from a Playing slot.
    fn playing_move(&mut self, from: usize, partner: usize, gid: usize, n: u32) -> (d: Directive)
        requires
            old(self).wf(),
            from < old(self).n_slots(),
            old(self).slot(from as int) == (SlotState::Playing { partner, game: gid }),
        ensures
            final(self).wf(),
            ({
                let g_old = old(self).games_view()[gid as int].unwrap();
                let side: int = if from < partner {
                    0
                } else {
                    1
                };
                &&& (!g_old.valid_move(side, n) ==> closes_with(
                    *old(self),
                    *final(self),
                    d,
                    from as int,
                    ServerMessage::ProtocolError,
                ))
                &&& (g_old.valid_move(side, n) ==> move_applied(
                    *old(self),
                    *final(self),
                    d,
                    from as int,
                    n,
                ))
            }),
    {
        proof {
            assert(old(self).slot_ok(from as int));
        }
        let side: usize = if from < partner {
            0
        } else {
            1
        };
        let mut taken: Option<Game> = None;
        let cell = vec_mut(&mut self.games, gid);
        core::mem::swap(cell, &mut taken);
        let mut g = match taken {
            Some(g) => g,
            None => {
                proof {
                    assert(false);
                }
                Game::new()
            },
        };
        let e = g.handle_move(side, n);
        match e {
            MoveEffect::Rejected => {
                let back = vec_mut(&mut self.games, gid);
                *back = Some(g);
                proof {
                    assert(self.games@ =~= old(self).games@);
                    lemma_wf_views(*old(self), *self);
                }
                self.reject(from, ServerMessage::ProtocolError)
            },
            MoveEffect::Accepted => {
                let back = vec_mut(&mut self.games, gid);
                *back = Some(g);
                proof {
                    assert(self.games@ =~= old(self).games@.update(
                        gid as int,
                        self.games@[gid as int],
                    ));
                    lemma_wf_after_game_update(*old(self), *self, from as int);
                }
                Directive::empty()
            },
            MoveEffect::Paired { first, second } => {
                let lo = if from < partner {
                    from
                } else {
                    partner
                };
                let hi = if from < partner {
                    partner
                } else {
                    from
                };
                let over = g.is_over();
                let mut d = Directive::empty();
                d.sends.push(Outgoing { to: lo, msg: ServerMessage::TurnResult(first) });
                d.sends.push(Outgoing { to: hi, msg: ServerMessage::TurnResult(second) });
                if over {
                    self.slots.set(from, SlotState::Idle);
                    self.slots.set(partner, SlotState::Idle);
                    d.sends.push(Outgoing { to: lo, msg: ServerMessage::EndOfGame });
                    d.sends.push(Outgoing { to: hi, msg: ServerMessage::EndOfGame });
                    proof {
                        lemma_wf_after_game_over(*old(self), *self, from as int);
                        assert(d.sends@ =~= seq![
                            (Outgoing { to: lo, msg: ServerMessage::TurnResult(first) }),
                            (Outgoing { to: hi, msg: ServerMessage::TurnResult(second) }),
                            (Outgoing { to: lo, msg: ServerMessage::EndOfGame }),
                            (Outgoing { to: hi, msg: ServerMessage::EndOfGame }),
                        ]);
                    }
                    d
                } else {
                    let back = vec_mut(&mut self.games, gid);
                    *back = Some(g);
                    proof {
                        assert(self.games@ =~= old(self).games@.update(
                            gid as int,
                            self.games@[gid as int],
                        ));
                        lemma_wf_after_game_update(*old(self), *self, from as int);
                        assert(d.sends@ =~= seq![
                            (Outgoing { to: lo, msg: ServerMessage::TurnResult(first) }),
                            (Outgoing { to: hi, msg: ServerMessage::TurnResult(second) }),
                        ]);
                    }
                    d
                }
            },
        }
    }

    /// Reports whether the creator's `Start` write succeeded.  On success
    /// the caller must next write `Start` to the joiner; on failure the
    /// creator is closed and the joiner is told `JoinFail` so it may retry.
    pub fn pairing_creator_sent(&mut self, joiner: usize, creator: usize, ok: bool) -> (d:
        Directive)
        requires
            old(self).wf(),
        ensures
            final(self).wf(),
            (!pairing_args_ok(*old(self), joiner as int, creator as int) ==> untouched(
                *old(self),
                *final(self),
                d,
            )),
            ((pairing_args_ok(*old(self), joiner as int, creator as int) && ok) ==> *final(self)
                == *old(self) && d.notices@ == Seq::<Outgoing>::empty() && d.closes@
                == Seq::<usize>::empty() && d.sends@ == Seq::<Outgoing>::empty() && d.next == (
            Followup::AwaitJoinerStart {
                joiner,
                creator,
                send: Outgoing { to: joiner, msg: spec_start_message() },
            })),
            ((pairing_args_ok(*old(self), joiner as int, creator as int) && !ok) ==> {
                &&& final(self).slots_view() == old(self).slots_view().update(
                    creator as int,
                    SlotState::Vacant,
                )
                &&& final(self).open_map() == old(self).open_map().remove(
                    code_of(old(self).slot(creator as int)),
                )
                &&& final(self).games_view() == old(self).games_view()
                &&& d.notices@ == Seq::<Outgoing>::empty()
                &&& d.closes@ == seq![creator]
                &&& d.sends@ == seq![(Outgoing { to: joiner, msg: ServerMessage::JoinFail })]
                &&& d.next is Done
            }),
    {
        if !self.pairing_args_valid(joiner, creator) {
            return Directive::empty();
        }
        if ok {
            let mut d = Directive::empty();
            d.next = Followup::AwaitJoinerStart {
                joiner,
                creator,
                send: Outgoing { to: joiner, msg: start_message() },
            };
            d
        } else {
            let mut d = self.remove(creator);
            d.sends.push(Outgoing { to: joiner, msg: ServerMessage::JoinFail });
            proof {
                assert(d.sends@ =~= seq![(Outgoing { to: joiner, msg: ServerMessage::JoinFail })]);
            }
            d
        }
    }

    /// Reports whether the joiner's `Start` write succeeded.  On success the
    /// two slots enter a fresh game.  On failure only the joiner is closed:
    /// the creator — which already saw `Start` — keeps its slot, its stream
    /// and its open game, and is told `ConnectionLost` (best effort); there
    /// is no rollback, and its own next read or write surfaces the broken
    /// pairing.
    pub fn pairing_joiner_sent(&mut self, joiner: usize, creator: usize, ok: bool) -> (d:
        Directive)
        requires
            old(self).wf(),
        ensures
            final(self).wf(),
            (!pairing_args_ok(*old(self), joiner as int, creator as int) ==> untouched(
                *old(self),
                *final(self),
                d,
            )),
            ((pairing_args_ok(*old(self), joiner as int, creator as int) && ok) ==> paired_up(
                *old(self),
                *final(self),
                d,
                joiner as int,
                creator as int,
            )),
            ((pairing_args_ok(*old(self), joiner as int, creator as int) && !ok) ==> {
                &&& final(self).slots_view() == old(self).slots_view().update(
                    joiner as int,
                    SlotState::Vacant,
                )
                &&& final(self).open_map() == old(self).open_map()
                &&& final(self).games_view() == old(self).games_view()
                &&& d.notices@ == seq![
                    (Outgoing { to: creator, msg: ServerMessage::ConnectionLost }),
                ]
                &&& d.closes@ == seq![joiner]
                &&& d.sends@ == Seq::<Outgoing>::empty()
                &&& d.next is Done
            }),
    {
        if !self.pairing_args_valid(joiner, creator) {
            return Directive::empty();
        }
        if ok {
            let code = match self.slots[creator] {
                SlotState::Waiting(c) => c,
                _ => {
                    proof {
                        assert(false);
                    }
                    0
                },
            };
            let gid = self.games.len();
            self.games.push(Some(Game::new()));
            self.open_games.remove(&code);
            self.slots.set(joiner, SlotState::Playing { partner: creator, game: gid });
            self.slots.set(creator, SlotState::Playing { partner: joiner, game: gid });
            proof {
                lemma_wf_after_pairing(*old(self), *self, joiner as int, creator as int, gid);
            }
            Directive::empty()
        } else {
            self.remove(joiner);
            let mut d = Directive::empty();
            d.notices.push(Outgoing { to: creator, msg: ServerMessage::ConnectionLost });
            d.closes.push(joiner);
            proof {
                assert(d.notices@ =~= seq![
                    (Outgoing { to: creator, msg: ServerMessage::ConnectionLost }),
                ]);
                assert(d.closes@ =~= seq![joiner]);
            }
            d
        }
    }

    /// The state of one slot, `Vacant` for indices never allocated.
    pub fn slot_state(&self, i: usize) -> (r: SlotState)
        ensures
            r == if i < self.n_slots() {
                self.slot(i as int)
            } else {
                SlotState::Vacant
            },
    {
        if i < self.slots.len() {
            self.slots[i]
        } else {
            SlotState::Vacant
        }
    }

    /// True iff the two slots are still in the states a pairing in progress
    /// needs: the joiner Idle, the creator Waiting.
    fn pairing_args_valid(&self, joiner: usize, creator: usize) -> (r: bool)
        requires
            self.wf(),
        ensures
            r == pairing_args_ok(*self, joiner as int, creator as int),
    {
        joiner < self.slots.len() && creator < self.slots.len() && joiner != creator && matches!(
            self.slots[joiner],
            SlotState::Idle,
        ) && matches!(self.slots[creator], SlotState::Waiting(_))
    }
}

/// The fixed parameters every game starts with.
pub open spec fn spec_start_message() -> ServerMessage {
    ServerMessage::Start(
        StartData { number_turns: MAX_TURNS as u32, total_points: TOTAL_POINTS },
    )
}

fn start_message() -> (m: ServerMessage)
    ensures
        m == spec_start_message(),
{
    ServerMessage::Start(StartData { number_turns: MAX_TURNS as u32, total_points: TOTAL_POINTS })
}

/// Relies on rand::random: draws one uniformly distributed join-code
/// candidate from the thread-local generator.  Nothing is assumed of the
/// value: callers must cope with every `u32`.
#[verifier::external_body]
fn draw_code() -> u32 {
    rand::random()
}

fn vec_mut<T>(v: &mut Vec<T>, i: usize) -> (r: &mut T)
    requires
        i < old(v)@.len(),
    ensures
        *r == old(v)@[i as int],
        final(v)@ == old(v)@.update(i as int, *final(r)),
{
    &mut v[i]
}

/// The step left nothing changed and asked nothing of the caller.
pub open spec fn untouched(pre: ServerState, post: ServerState, d: Directive) -> bool {
    &&& post == pre
    &&& d.notices@ == Seq::<Outgoing>::empty()
    &&& d.closes@ == Seq::<usize>::empty()
    &&& d.sends@ == Seq::<Outgoing>::empty()
    &&& d.next is Done
}

/// The offender was told `m` (best effort) and closed; a Playing offender's
/// partner was told `ConnectionLost` and returned to Idle, and their game
/// was dropped.
pub open spec fn closes_with(
    pre: ServerState,
    post: ServerState,
    d: Directive,
    from: int,
    m: ServerMessage,
) -> bool {
    &&& 0 <= from < pre.n_slots()
    &&& d.sends@ == Seq::<Outgoing>::empty()
    &&& d.next is Done
    &&& d.closes@ == seq![from as usize]
    &&& post.slot(from) == SlotState::Vacant
    &&& post.n_slots() == pre.n_slots()
    &&& (pre.slot(from) matches SlotState::Playing { partner, game } ==> {
        &&& d.notices@ == seq![
            (Outgoing { to: from as usize, msg: m }),
            (Outgoing { to: partner, msg: ServerMessage::ConnectionLost }),
        ]
        &&& post.slot(partner as int) == SlotState::Idle
        &&& post.slots_view() == pre.slots_view().update(from, SlotState::Vacant).update(
            partner as int,
            SlotState::Idle,
        )
        &&& post.games_view() == pre.games_view().update(game as int, None)
        &&& post.open_map() == pre.open_map()
    })
    &&& (!(pre.slot(from) is Playing) ==> {
        &&& d.notices@ == seq![(Outgoing { to: from as usize, msg: m })]
        &&& post.slots_view() == pre.slots_view().update(from, SlotState::Vacant)
        &&& post.games_view() == pre.games_view()
        &&& (pre.slot(from) matches SlotState::Waiting(c) ==> post.open_map() == pre.open_map(
        ).remove(c))
        &&& (!(pre.slot(from) is Waiting) ==> post.open_map() == pre.open_map())
    })
}

/// A game was opened for `from` under the fresh code `c`, indexed, and
/// `Created(c)` is on its way.
pub open spec fn created_with(
    pre: ServerState,
    post: ServerState,
    d: Directive,
    from: int,
    c: u32,
) -> bool {
    &&& !pre.open_map().dom().contains(c)
    &&& post.slots_view() == pre.slots_view().update(from, SlotState::Waiting(c))
    &&& post.open_map() == pre.open_map().insert(c, from as usize)
    &&& post.games_view() == pre.games_view()
    &&& d.notices@ == Seq::<Outgoing>::empty()
    &&& d.closes@ == Seq::<usize>::empty()
    &&& d.sends@ == seq![(Outgoing { to: from as usize, msg: ServerMessage::Created(c) })]
    &&& d.next is Done
}

/// A join matched an open game: nothing changes until the creator's `Start`
/// is written and reported through `pairing_creator_sent`.
pub open spec fn pairing_begun(
    pre: ServerState,
    post: ServerState,
    d: Directive,
    joiner: int,
    code: u32,
) -> bool {
    &&& pre.open_map().dom().contains(code)
    &&& post == pre
    &&& d.notices@ == Seq::<Outgoing>::empty()
    &&& d.closes@ == Seq::<usize>::empty()
    &&& d.sends@ == Seq::<Outgoing>::empty()
    &&& d.next == (Followup::AwaitCreatorStart {
        joiner: joiner as usize,
        creator: pre.open_map()[code],
        send: Outgoing { to: pre.open_map()[code], msg: spec_start_message() },
    })
}

/// A join named no open game: `JoinFail` is on its way and nothing changed.
pub open spec fn join_failed(
    pre: ServerState,
    post: ServerState,
    d: Directive,
    from: int,
) -> bool {
    &&& post == pre
    &&& d.notices@ == Seq::<Outgoing>::empty()
    &&& d.closes@ == Seq::<usize>::empty()
    &&& d.sends@ == seq![(Outgoing { to: from as usize, msg: ServerMessage::JoinFail })]
    &&& d.next is Done
}

/// Both `Start` writes succeeded: the pair enters a fresh game, the code
/// leaves the index.
pub open spec fn paired_up(
    pre: ServerState,
    post: ServerState,
    d: Directive,
    joiner: int,
    creator: int,
) -> bool {
    let gid = pre.games_view().len() as int;
    &&& post.slots_view() == pre.slots_view().update(
        joiner,
        SlotState::Playing { partner: creator as usize, game: gid as usize },
    ).update(creator, SlotState::Playing { partner: joiner as usize, game: gid as usize })
    &&& post.games_view().len() == gid + 1
    &&& post.games_view()[gid] is Some
    &&& post.games_view()[gid].unwrap().guesses(0) == Seq::<u32>::empty()
    &&& post.games_view()[gid].unwrap().guesses(1) == Seq::<u32>::empty()
    &&& post.games_view()[gid].unwrap().left(0) == TOTAL_POINTS
    &&& post.games_view()[gid].unwrap().left(1) == TOTAL_POINTS
    &&& (forall|g: int| 0 <= g < gid ==> post.games_view()[g] == pre.games_view()[g])
    &&& post.open_map() == pre.open_map().remove(code_of(pre.slot(creator)))
    &&& d.notices@ == Seq::<Outgoing>::empty()
    &&& d.closes@ == Seq::<usize>::empty()
    &&& d.sends@ == Seq::<Outgoing>::empty()
    &&& d.next is Done
}

/// The two slots are still in the states a pairing in progress needs.
pub open spec fn pairing_args_ok(s: ServerState, joiner: int, creator: int) -> bool {
    &&& 0 <= joiner < s.n_slots()
    &&& 0 <= creator < s.n_slots()
    &&& joiner != creator
    &&& s.slot(joiner) is Idle
    &&& s.slot(creator) is Waiting
}

/// A valid wager was recorded; if it completed a turn both results are on
/// their way (lower slot first), and a finished game returns both slots to
/// Idle and sends `EndOfGame` after the results.
pub open spec fn move_applied(
    pre: ServerState,
    post: ServerState,
    d: Directive,
    from: int,
    n: u32,
) -> bool {
    let q = partner_of(pre.slot(from)) as int;
    let gid = game_of(pre.slot(from)) as int;
    let g_old = pre.games_view()[gid].unwrap();
    let side: int = if from < q {
        0
    } else {
        1
    };
    let gs = g_old.guesses(side);
    let go = g_old.guesses(1 - side);
    let lo: usize = if from < q {
        from as usize
    } else {
        q as usize
    };
    let hi: usize = if from < q {
        q as usize
    } else {
        from as usize
    };
    let paired = go.len() > gs.len();
    let over = gs.len() + 1 == MAX_TURNS && go.len() == MAX_TURNS;
    &&& d.notices@ == Seq::<Outgoing>::empty()
    &&& d.closes@ == Seq::<usize>::empty()
    &&& d.next is Done
    &&& post.open_map() == pre.open_map()
    &&& post.n_slots() == pre.n_slots()
    &&& post.games_view().len() == pre.games_view().len()
    &&& (forall|g: int| 0 <= g < pre.games_view().len() && g != gid ==> post.games_view()[g]
        == pre.games_view()[g])
    &&& (!over ==> {
        &&& post.slots_view() == pre.slots_view()
        &&& post.games_view()[gid] is Some
        &&& post.games_view()[gid].unwrap().guesses(side) == gs.push(n)
        &&& post.games_view()[gid].unwrap().guesses(1 - side) == go
        &&& post.games_view()[gid].unwrap().left(side) == g_old.left(side) - n
        &&& post.games_view()[gid].unwrap().left(1 - side) == g_old.left(1 - side)
    })
    &&& (over ==> {
        &&& post.slots_view() == pre.slots_view().update(from, SlotState::Idle).update(
            q,
            SlotState::Idle,
        )
        &&& post.games_view()[gid] is None
    })
    &&& (!paired ==> d.sends@ == Seq::<Outgoing>::empty())
    &&& (paired ==> {
        let w = go[gs.len() as int];
        let to_mover = cmp_sign(w, n);
        let to_partner = cmp_sign(n, w);
        let r_lo = if side == 0 {
            to_mover
        } else {
            to_partner
        };
        let r_hi = if side == 0 {
            to_partner
        } else {
            to_mover
        };
        &&& (!over ==> d.sends@ == seq![
            (Outgoing { to: lo, msg: ServerMessage::TurnResult(r_lo) }),
            (Outgoing { to: hi, msg: ServerMessage::TurnResult(r_hi) }),
        ])
        &&& (over ==> d.sends@ == seq![
            (Outgoing { to: lo, msg: ServerMessage::TurnResult(r_lo) }),
            (Outgoing { to: hi, msg: ServerMessage::TurnResult(r_hi) }),
            (Outgoing { to: lo, msg: ServerMessage::EndOfGame }),
            (Outgoing { to: hi, msg: ServerMessage::EndOfGame }),
        ])
    })
}

/// The invariant depends only on the three views.
proof fn lemma_wf_views(x: ServerState, y: ServerState)
    requires
        x.wf(),
        y.slots_view() == x.slots_view(),
        y.open_map() == x.open_map(),
        y.games_view() == x.games_view(),
    ensures
        y.wf(),
{
    assert forall|c: u32| #[trigger] y.open_map().dom().contains(c) implies y.open_map()[c]
        < y.n_slots() && y.slot(y.open_map()[c] as int) == SlotState::Waiting(c) by {
        assert(x.slot(x.open_map()[c] as int) == SlotState::Waiting(c));
    }
    assert forall|j: int| 0 <= j < y.n_slots() implies #[trigger] y.slot_ok(j) by {
        assert(x.slot_ok(j));
    }
    assert forall|a: int, b: int|
        (0 <= a < y.n_slots() && 0 <= b < y.n_slots() && a != b && (#[trigger] y.slot(
            a,
        )) is Playing && (#[trigger] y.slot(b)) is Playing && game_of(y.slot(a)) == game_of(
            y.slot(b),
        )) implies partner_of(y.slot(a)) == b as usize by {
        assert(y.slot(a) == x.slot(a));
        assert(y.slot(b) == x.slot(b));
        assert(x.games_exclusive());
    }
}

/// Opening a game under a fresh code preserves the invariant.
proof fn lemma_wf_after_create(pre: ServerState, post: ServerState, from: int, c: u32)
    requires
        pre.wf(),
        0 <= from < pre.n_slots(),
        pre.slot(from) is Idle,
        !pre.open_map().dom().contains(c),
        post.slots_view() == pre.slots_view().update(from, SlotState::Waiting(c)),
        post.open_map() == pre.open_map().insert(c, from as usize),
        post.games_view() == pre.games_view(),
    ensures
        post.wf(),
{
    assert forall|k: u32| #[trigger] post.open_map().dom().contains(k) implies post.open_map()[k]
        < post.n_slots() && post.slot(post.open_map()[k] as int) == SlotState::Waiting(k) by {
        if k == c {
        } else {
            assert(pre.open_map().dom().contains(k));
            assert(pre.slot(pre.open_map()[k] as int) == SlotState::Waiting(k));
            assert(pre.open_map()[k] != from as usize);
        }
    }
    assert forall|j: int| 0 <= j < post.n_slots() implies #[trigger] post.slot_ok(j) by {
        assert(pre.slot_ok(j));
        if j != from {
            match post.slot(j) {
                SlotState::Waiting(k) => {
                    assert(pre.open_map().dom().contains(k));
                    assert(k != c);
                },
                SlotState::Playing { partner, game } => {
                    assert(partner != from) by {
                        if partner == from {
                            assert(pre.slot(from) == (SlotState::Playing {
                                partner: j as usize,
                                game,
                            }));
                        }
                    }
                },
                _ => {},
            }
        }
    }
    assert forall|a: int, b: int|
        (0 <= a < post.n_slots() && 0 <= b < post.n_slots() && a != b && (#[trigger] post.slot(
            a,
        )) is Playing && (#[trigger] post.slot(b)) is Playing && game_of(post.slot(a)) == game_of(
            post.slot(b),
        )) implies partner_of(post.slot(a)) == b as usize by {
        assert(post.slot(a) == pre.slot(a));
        assert(post.slot(b) == pre.slot(b));
        assert(pre.games_exclusive());
    }
}

/// Entering a fresh game preserves the invariant.
proof fn lemma_wf_after_pairing(
    pre: ServerState,
    post: ServerState,
    joiner: int,
    creator: int,
    gid: usize,
)
    requires
        pre.wf(),
        pairing_args_ok(pre, joiner, creator),
        gid == pre.games_view().len(),
        post.slots_view() == pre.slots_view().update(
            joiner,
            SlotState::Playing { partner: creator as usize, game: gid },
        ).update(creator, SlotState::Playing { partner: joiner as usize, game: gid }),
        post.open_map() == pre.open_map().remove(code_of(pre.slot(creator))),
        post.games_view().len() == pre.games_view().len() + 1,
        post.games_view()[pre.games_view().len() as int] is Some,
        post.games_view()[pre.games_view().len() as int].unwrap().wf(),
        forall|g: int| 0 <= g < pre.games_view().len() ==> post.games_view()[g]
            == pre.games_view()[g],
    ensures
        post.wf(),
{
    let c = code_of(pre.slot(creator));
    assert(pre.slot_ok(creator));
    assert forall|k: u32| #[trigger] post.open_map().dom().contains(k) implies post.open_map()[k]
        < post.n_slots() && post.slot(post.open_map()[k] as int) == SlotState::Waiting(k) by {
        assert(pre.open_map().dom().contains(k));
        assert(pre.slot(pre.open_map()[k] as int) == SlotState::Waiting(k));
        assert(pre.open_map()[k] != joiner as usize);
        assert(pre.open_map()[k] != creator as usize) by {
            if pre.open_map()[k] == creator as usize {
                assert(pre.slot(creator) == SlotState::Waiting(k));
            }
        }
    }
    assert forall|j: int| 0 <= j < post.n_slots() implies #[trigger] post.slot_ok(j) by {
        assert(pre.slot_ok(j));
        if j == joiner || j == creator {
            assert(post.slot(joiner) == (SlotState::Playing {
                partner: creator as usize,
                game: gid,
            }));
            assert(post.slot(creator) == (SlotState::Playing {
                partner: joiner as usize,
                game: gid,
            }));
            assert(post.games_view()[gid as int] is Some);
        } else {
            match post.slot(j) {
                SlotState::Waiting(k) => {
                    assert(k != c) by {
                        if k == c {
                            assert(pre.slot_ok(creator));
                            assert(pre.open_map()[c] == creator as usize);
                            assert(pre.open_map()[k] == j as usize);
                        }
                    }
                },
                SlotState::Playing { partner, game } => {
                    assert(partner != joiner && partner != creator) by {
                        if partner == joiner {
                            assert(pre.slot(joiner) == (SlotState::Playing {
                                partner: j as usize,
                                game,
                            }));
                        }
                        if partner == creator {
                            assert(pre.slot(creator) == (SlotState::Playing {
                                partner: j as usize,
                                game,
                            }));
                        }
                    }
                    assert(game < pre.games_view().len());
                },
                _ => {},
            }
        }
    }
    assert forall|a: int, b: int|
        (0 <= a < post.n_slots() && 0 <= b < post.n_slots() && a != b && (#[trigger] post.slot(
            a,
        )) is Playing && (#[trigger] post.slot(b)) is Playing && game_of(post.slot(a)) == game_of(
            post.slot(b),
        )) implies partner_of(post.slot(a)) == b as usize by {
        let in_pair_a = a == joiner || a == creator;
        let in_pair_b = b == joiner || b == creator;
        if in_pair_a && in_pair_b {
            assert(post.slot(joiner) == (SlotState::Playing {
                partner: creator as usize,
                game: gid,
            }));
            assert(post.slot(creator) == (SlotState::Playing {
                partner: joiner as usize,
                game: gid,
            }));
        } else if in_pair_a {
            assert(post.slot(b) == pre.slot(b));
            assert(pre.slot_ok(b));
            assert(game_of(post.slot(b)) < pre.games_view().len());
            assert(game_of(post.slot(a)) == gid);
            assert(false);
        } else if in_pair_b {
            assert(post.slot(a) == pre.slot(a));
            assert(pre.slot_ok(a));
            assert(game_of(post.slot(a)) < pre.games_view().len());
            assert(game_of(post.slot(b)) == gid);
            assert(false);
        } else {
            assert(post.slot(a) == pre.slot(a));
            assert(post.slot(b) == pre.slot(b));
            assert(pre.games_exclusive());
        }
    }
}

/// Replacing a pair's game with a well-formed successor preserves the
/// invariant.
proof fn lemma_wf_after_game_update(pre: ServerState, post: ServerState, from: int)
    requires
        pre.wf(),
        0 <= from < pre.n_slots(),
        pre.slot(from) is Playing,
        post.slots_view() == pre.slots_view(),
        post.open_map() == pre.open_map(),
        post.games_view() == pre.games_view().update(
            game_of(pre.slot(from)) as int,
            post.games_view()[game_of(pre.slot(from)) as int],
        ),
        post.games_view()[game_of(pre.slot(from)) as int] is Some,
        post.games_view()[game_of(pre.slot(from)) as int].unwrap().wf(),
    ensures
        post.wf(),
{
    assert(pre.slot_ok(from));
    assert forall|k: u32| #[trigger] post.open_map().dom().contains(k) implies post.open_map()[k]
        < post.n_slots() && post.slot(post.open_map()[k] as int) == SlotState::Waiting(k) by {
        assert(pre.slot(pre.open_map()[k] as int) == SlotState::Waiting(k));
    }
    assert forall|j: int| 0 <= j < post.n_slots() implies #[trigger] post.slot_ok(j) by {
        assert(pre.slot_ok(j));
    }
    assert forall|a: int, b: int|
        (0 <= a < post.n_slots() && 0 <= b < post.n_slots() && a != b && (#[trigger] post.slot(
            a,
        )) is Playing && (#[trigger] post.slot(b)) is Playing && game_of(post.slot(a)) == game_of(
            post.slot(b),
        )) implies partner_of(post.slot(a)) == b as usize by {
        assert(post.slot(a) == pre.slot(a));
        assert(post.slot(b) == pre.slot(b));
        assert(pre.games_exclusive());
    }
}

/// Ending a pair's game and returning both sides to Idle preserves the
/// invariant.
proof fn lemma_wf_after_game_over(pre: ServerState, post: ServerState, from: int)
    requires
        pre.wf(),
        0 <= from < pre.n_slots(),
        pre.slot(from) is Playing,
        post.slots_view() == pre.slots_view().update(from, SlotState::Idle).update(
            partner_of(pre.slot(from)) as int,
            SlotState::Idle,
        ),
        post.open_map() == pre.open_map(),
        post.games_view() == pre.games_view().update(game_of(pre.slot(from)) as int, None),
    ensures
        post.wf(),
{
    let q = partner_of(pre.slot(from)) as int;
    let g = game_of(pre.slot(from)) as int;
    lemma_playing_pairs_matched(pre, from);
    assert forall|k: u32| #[trigger] post.open_map().dom().contains(k) implies post.open_map()[k]
        < post.n_slots() && post.slot(post.open_map()[k] as int) == SlotState::Waiting(k) by {
        assert(pre.slot(pre.open_map()[k] as int) == SlotState::Waiting(k));
        assert(pre.open_map()[k] != from as usize && pre.open_map()[k] != q as usize) by {
            if pre.open_map()[k] == from as usize {
                assert(pre.slot(from) == SlotState::Waiting(k));
            }
            if pre.open_map()[k] == q as usize {
                assert(pre.slot(q) == SlotState::Waiting(k));
            }
        }
    }
    assert forall|j: int| 0 <= j < post.n_slots() implies #[trigger] post.slot_ok(j) by {
        assert(pre.slot_ok(j));
        if j != from && j != q {
            match post.slot(j) {
                SlotState::Playing { partner, game } => {
                    assert(post.slot(j) == pre.slot(j));
                    assert(partner != from && partner != q) by {
                        if partner == from {
                            assert(pre.slot(from) == (SlotState::Playing {
                                partner: j as usize,
                                game,
                            }));
                        }
                        if partner == q {
                            assert(pre.slot(q) == (SlotState::Playing {
                                partner: j as usize,
                                game,
                            }));
                        }
                    }
                    assert(game != g) by {
                        if game == g {
                            assert(pre.games_exclusive());
                            assert(partner_of(pre.slot(j)) == from as usize);
                            assert(partner_of(pre.slot(from)) == j as usize);
                        }
                    }
                },
                _ => {},
            }
        }
    }
    assert forall|a: int, b: int|
        (0 <= a < post.n_slots() && 0 <= b < post.n_slots() && a != b && (#[trigger] post.slot(
            a,
        )) is Playing && (#[trigger] post.slot(b)) is Playing && game_of(post.slot(a)) == game_of(
            post.slot(b),
        )) implies partner_of(post.slot(a)) == b as usize by {
        assert(a != from && a != q && b != from && b != q);
        assert(post.slot(a) == pre.slot(a));
        assert(post.slot(b) == pre.slot(b));
        assert(pre.games_exclusive());
    }
}

/// Every code in the open-games index names a slot Waiting under exactly
/// that code, and conversely every Waiting slot's code is in the index,
/// mapped back to that slot.
pub proof fn lemma_open_games_consistent(s: ServerState)
    requires
        s.wf(),
    ensures
        forall|c: u32| #[trigger] s.open_map().dom().contains(c) ==> s.open_map()[c] < s.n_slots()
            && s.slot(s.open_map()[c] as int) == SlotState::Waiting(c),
        forall|i: int|
            0 <= i < s.n_slots() && (#[trigger] s.slot(i)) is Waiting ==> s.open_map(
            ).dom().contains(code_of(s.slot(i))) && s.open_map()[code_of(s.slot(i))] == i as usize,
{
    assert forall|i: int| 0 <= i < s.n_slots() && (#[trigger] s.slot(i)) is Waiting implies s
        .open_map().dom().contains(code_of(s.slot(i))) && s.open_map()[code_of(s.slot(i))]
        == i as usize by {
        assert(s.slot_ok(i));
    }
}

/// Playing slots pair up: the partner plays back over the same game, the
/// game is live, and no third slot references it.
pub proof fn lemma_playing_pairs_matched(s: ServerState, i: int)
    requires
        s.wf(),
        0 <= i < s.n_slots(),
        s.slot(i) is Playing,
    ensures
        partner_of(s.slot(i)) < s.n_slots(),
        partner_of(s.slot(i)) != i as usize,
        s.slot(partner_of(s.slot(i)) as int) == (SlotState::Playing {
            partner: i as usize,
            game: game_of(s.slot(i)),
        }),
        game_of(s.slot(i)) < s.games_view().len(),
        s.games_view()[game_of(s.slot(i)) as int] is Some,
        s.games_view()[game_of(s.slot(i)) as int].unwrap().wf(),
        forall|j: int|
            0 <= j < s.n_slots() && (#[trigger] s.slot(j)) is Playing && game_of(s.slot(j))
                == game_of(s.slot(i)) ==> j == i || j == partner_of(s.slot(i)) as int,
{
    assert(s.slot_ok(i));
    assert forall|j: int|
        0 <= j < s.n_slots() && (#[trigger] s.slot(j)) is Playing && game_of(s.slot(j)) == game_of(
            s.slot(i),
        ) implies j == i || j == partner_of(s.slot(i)) as int by {
        if j != i {
            assert(s.games_exclusive());
            assert(partner_of(s.slot(j)) == i as usize);
            assert(partner_of(s.slot(i)) == j as usize);
        }
    }
}

/// Vacating a Waiting slot and dropping its code preserves the invariant.
proof fn lemma_wf_after_remove_waiting(pre: ServerState, post: ServerState, i: int, c: u32)
    requires
        pre.wf(),
        0 <= i < pre.n_slots(),
        pre.slot(i) == SlotState::Waiting(c),
        post.slots_view() == pre.slots_view().update(i, SlotState::Vacant),
        post.open_map() == pre.open_map().remove(c),
        post.games_view() == pre.games_view(),
    ensures
        post.wf(),
{
    assert forall|k: u32| #[trigger] post.open_map().dom().contains(k) implies post.open_map()[k]
        < post.n_slots() && post.slot(post.open_map()[k] as int) == SlotState::Waiting(k) by {
        assert(pre.open_map().dom().contains(k));
        assert(pre.slot(pre.open_map()[k] as int) == SlotState::Waiting(k));
        assert(pre.open_map()[k] != i as usize) by {
            if pre.open_map()[k] == i as usize {
                assert(pre.slot(i) == SlotState::Waiting(k));
            }
        }
    }
    assert forall|j: int| 0 <= j < post.n_slots() implies #[trigger] post.slot_ok(j) by {
        assert(pre.slot_ok(j));
        if j != i {
            match post.slot(j) {
                SlotState::Waiting(k) => {
                    assert(k != c) by {
                        if k == c {
                            assert(pre.slot_ok(i));
                            assert(pre.slot_ok(j));
                        }
                    }
                },
                SlotState::Playing { partner, game } => {
                    assert(partner != i) by {
                        if partner == i {
                            assert(pre.slot(i) == (SlotState::Playing {
                                partner: j as usize,
                                game,
                            }));
                        }
                    }
                },
                _ => {},
            }
        }
    }
    assert forall|a: int, b: int|
        (0 <= a < post.n_slots() && 0 <= b < post.n_slots() && a != b && (#[trigger] post.slot(
            a,
        )) is Playing && (#[trigger] post.slot(b)) is Playing && game_of(post.slot(a)) == game_of(
            post.slot(b),
        )) implies partner_of(post.slot(a)) == b as usize by {
        assert(post.slot(a) == pre.slot(a));
        assert(post.slot(b) == pre.slot(b));
        assert(pre.games_exclusive());
    }
}

/// Vacating one side of a pair, idling the other, and dropping their game
/// preserves the invariant.
proof fn lemma_wf_after_remove_playing(pre: ServerState, post: ServerState, i: int)
    requires
        pre.wf(),
        0 <= i < pre.n_slots(),
        pre.slot(i) is Playing,
        post.slots_view() == pre.slots_view().update(i, SlotState::Vacant).update(
            partner_of(pre.slot(i)) as int,
            SlotState::Idle,
        ),
        post.open_map() == pre.open_map(),
        post.games_view() == pre.games_view().update(game_of(pre.slot(i)) as int, None),
    ensures
        post.wf(),
{
    let q = partner_of(pre.slot(i)) as int;
    let g = game_of(pre.slot(i)) as int;
    lemma_playing_pairs_matched(pre, i);
    assert forall|k: u32| #[trigger] post.open_map().dom().contains(k) implies post.open_map()[k]
        < post.n_slots() && post.slot(post.open_map()[k] as int) == SlotState::Waiting(k) by {
        assert(pre.slot(pre.open_map()[k] as int) == SlotState::Waiting(k));
        assert(pre.open_map()[k] != i as usize && pre.open_map()[k] != q as usize) by {
            if pre.open_map()[k] == i as usize {
                assert(pre.slot(i) == SlotState::Waiting(k));
            }
            if pre.open_map()[k] == q as usize {
                assert(pre.slot(q) == SlotState::Waiting(k));
            }
        }
    }
    assert forall|j: int| 0 <= j < post.n_slots() implies #[trigger] post.slot_ok(j) by {
        assert(pre.slot_ok(j));
        if j != i && j != q {
            match post.slot(j) {
                SlotState::Playing { partner, game } => {
                    assert(post.slot(j) == pre.slot(j));
                    assert(partner != i && partner != q) by {
                        if partner == i {
                            assert(pre.slot(i) == (SlotState::Playing {
                                partner: j as usize,
                                game,
                            }));
                        }
                        if partner == q {
                            assert(pre.slot(q) == (SlotState::Playing {
                                partner: j as usize,
                                game,
                            }));
                        }
                    }
                    assert(game != g) by {
                        if game == g {
                            assert(pre.games_exclusive());
                            assert(partner_of(pre.slot(j)) == i as usize);
                            assert(partner_of(pre.slot(i)) == j as usize);
                        }
                    }
                },
                _ => {},
            }
        }
    }
    assert forall|a: int, b: int|
        (0 <= a < post.n_slots() && 0 <= b < post.n_slots() && a != b && (#[trigger] post.slot(
            a,
        )) is Playing && (#[trigger] post.slot(b)) is Playing && game_of(post.slot(a)) == game_of(
            post.slot(b),
        )) implies partner_of(post.slot(a)) == b as usize by {
        assert(a != i && a != q && b != i && b != q);
        assert(post.slot(a) == pre.slot(a));
        assert(post.slot(b) == pre.slot(b));
        assert(pre.games_exclusive());
    }
}

/// Turning a Vacant slot Idle, or vacating an Idle slot, preserves the
/// invariant: no code, game, or partner ever references either state.
proof fn lemma_still_wf_after_slot_update(pre: ServerState, post: ServerState, i: int)
    requires
        pre.wf(),
        0 <= i < pre.n_slots(),
        pre.slot(i) is Vacant || pre.slot(i) is Idle,
        post.slots_view() == pre.slots_view().update(
            i,
            if pre.slot(i) is Vacant {
                SlotState::Idle
            } else {
                SlotState::Vacant
            },
        ),
        post.open_map() == pre.open_map(),
        post.games_view() == pre.games_view(),
    ensures
        post.wf(),
{
    assert forall|c: u32| #[trigger] post.open_map().dom().contains(c) implies post.open_map()[c]
        < post.n_slots() && post.slot(post.open_map()[c] as int) == SlotState::Waiting(c) by {
        assert(pre.open_map().dom().contains(c));
        assert(pre.slot(pre.open_map()[c] as int) == SlotState::Waiting(c));
    }
    assert forall|j: int| 0 <= j < post.n_slots() implies #[trigger] post.slot_ok(j) by {
        assert(pre.slot_ok(j));
        if j != i {
            match post.slot(j) {
                SlotState::Playing { partner, game } => {
                    assert(partner != i) by {
                        if partner == i {
                            assert(pre.slot(i) == (SlotState::Playing {
                                partner: j as usize,
                                game,
                            }));
                        }
                    }
                },
                _ => {},
            }
        }
    }
    assert forall|a: int, b: int|
        (0 <= a < post.n_slots() && 0 <= b < post.n_slots() && a != b && (#[trigger] post.slot(
            a,
        )) is Playing && (#[trigger] post.slot(b)) is Playing && game_of(post.slot(a)) == game_of(
            post.slot(b),
        )) implies partner_of(post.slot(a)) == b as usize by {
        assert(post.slot(a) == pre.slot(a));
        assert(post.slot(b) == pre.slot(b));
        assert(pre.games_exclusive());
    }
}

/// Appending an Idle slot preserves the invariant.
proof fn lemma_still_wf_after_slot_push(pre: ServerState, post: ServerState)
    requires
        pre.wf(),
        pre.n_slots() < MAX_CONNECTIONS,
        post.slots_view() == pre.slots_view().push(SlotState::Idle),
        post.open_map() == pre.open_map(),
        post.games_view() == pre.games_view(),
    ensures
        post.wf(),
{
    let n = pre.n_slots() as int;
    assert forall|c: u32| #[trigger] post.open_map().dom().contains(c) implies post.open_map()[c]
        < post.n_slots() && post.slot(post.open_map()[c] as int) == SlotState::Waiting(c) by {
        assert(pre.slot(pre.open_map()[c] as int) == SlotState::Waiting(c));
    }
    assert forall|j: int| 0 <= j < post.n_slots() implies #[trigger] post.slot_ok(j) by {
        if j < n {
            assert(pre.slot_ok(j));
        }
    }
    assert forall|a: int, b: int|
        (0 <= a < post.n_slots() && 0 <= b < post.n_slots() && a != b && (#[trigger] post.slot(
            a,
        )) is Playing && (#[trigger] post.slot(b)) is Playing && game_of(post.slot(a)) == game_of(
            post.slot(b),
        )) implies partner_of(post.slot(a)) == b as usize by {
        assert(post.slot(a) == pre.slot(a));
        assert(post.slot(b) == pre.slot(b));
        assert(pre.games_exclusive());
    }
}

} // verus!
