//! Inbound protocol events: the line grammar (fields joined by `|`),
//! the numeric field format, one handler per event name, and the
//! dispatcher that routes a decoded line to its handler.
//!
//! A recognized event with missing or unparsable required fields is a
//! fatal decode error; an unrecognized event name is ignored.
use vstd::prelude::*;
use crate::decide::decide;
use crate::decide::eval_counts;
use crate::decide::pick_direction;
use crate::grid_store::uniform_grid;
use crate::send::Join;
use crate::send::Move;
use crate::state::GameData;
use crate::state::spec_clear_participant;
use crate::util::PLAYER_ID_NONE;
use crate::util::PlayerId;
use crate::util::Vector2;

verus! {

broadcast use vstd::std_specs::hash::group_hash_axioms;

/// The field delimiter of the wire protocol.
pub open spec fn delim() -> char {
    '|'
}

/// Index of the first delimiter in `s`, or -1 when there is none.
pub open spec fn first_delim(s: Seq<char>) -> int
    decreases s.len(),
{
    if s.len() == 0 {
        -1
    } else if s[0] == delim() {
        0
    } else {
        let r = first_delim(s.drop_first());
        if r == -1 {
            -1
        } else {
            r + 1
        }
    }
}

/// The fields of a line: the segments between delimiters, in order.
/// A line with no delimiter is one field; every line has at least one.
pub open spec fn spec_split(s: Seq<char>) -> Seq<Seq<char>>
    decreases s.len(),
{
    let i = first_delim(s);
    if 0 <= i < s.len() {
        seq![s.take(i)] + spec_split(s.skip(i + 1))
    } else {
        seq![s]
    }
}

proof fn lemma_first_delim_at(s: Seq<char>, d: int)
    requires
        0 <= d < s.len(),
        s[d] == delim(),
        forall|k: int| 0 <= k < d ==> s[k] != delim(),
    ensures
        first_delim(s) == d,
    decreases d,
{
    if d > 0 {
        lemma_first_delim_at(s.drop_first(), d - 1);
    }
}

proof fn lemma_first_delim_none(s: Seq<char>)
    requires
        forall|k: int| 0 <= k < s.len() ==> s[k] != delim(),
    ensures
        first_delim(s) == -1,
    decreases s.len(),
{
    if s.len() > 0 {
        lemma_first_delim_none(s.drop_first());
    }
}

proof fn lemma_split_at_delim(s: Seq<char>, d: int)
    requires
        0 <= d < s.len(),
        s[d] == delim(),
        forall|k: int| 0 <= k < d ==> s[k] != delim(),
    ensures
        spec_split(s) == seq![s.take(d)] + spec_split(s.skip(d + 1)),
{
    lemma_first_delim_at(s, d);
}

proof fn lemma_split_no_delim(s: Seq<char>)
    requires
        forall|k: int| 0 <= k < s.len() ==> s[k] != delim(),
    ensures
        spec_split(s) == seq![s],
{
    lemma_first_delim_none(s);
}

/// Splits a line into its `|`-separated fields.
pub fn split_fields(line: &Vec<char>) -> (r: Vec<Vec<char>>)
    ensures
        r.deep_view() == spec_split(line@),
        r.len() >= 1,
{
    let mut r: Vec<Vec<char>> = Vec::new();
    let mut cur: Vec<char> = Vec::new();
    let mut i: usize = 0;
    let ghost mut start: int = 0;
    proof {
        assert(line@.skip(0) =~= line@);
        assert(r.deep_view() =~= Seq::<Seq<char>>::empty());
        assert(cur@ =~= line@.subrange(0, 0));
    }
    while i < line.len()
        invariant
            0 <= start <= i <= line.len(),
            cur@ == line@.subrange(start, i as int),
            forall|k: int| start <= k < i ==> line@[k] != delim(),
            spec_split(line@) == r.deep_view() + spec_split(line@.skip(start)),
        decreases line.len() - i,
    {
        let ch = line[i];
        if ch == '|' {
            proof {
                let t = line@.skip(start);
                assert(t[i - start] == delim());
                assert forall|k: int| 0 <= k < i - start implies t[k] != delim() by {
                    assert(t[k] == line@[start + k]);
                }
                lemma_split_at_delim(t, i - start);
                assert(t.take(i - start) =~= line@.subrange(start, i as int));
                assert(t.skip(i - start + 1) =~= line@.skip(i + 1));
            }
            let ghost old_dv = r.deep_view();
            r.push(cur);
            proof {
                assert(r.deep_view() =~~= old_dv.push(cur@));
                assert(r.deep_view() + spec_split(line@.skip(i + 1)) =~= old_dv + (seq![
                    line@.subrange(start, i as int),
                ] + spec_split(line@.skip(i + 1))));
            }
            cur = Vec::new();
            proof {
                start = i + 1;
            }
            i = i + 1;
            proof {
                assert(cur@ =~= line@.subrange(start, i as int));
            }
        } else {
            cur.push(ch);
            i = i + 1;
            proof {
                assert(cur@ =~= line@.subrange(start, i as int));
            }
        }
    }
    proof {
        let t = line@.skip(start);
        assert forall|k: int| 0 <= k < t.len() implies t[k] != delim() by {
            assert(t[k] == line@[start + k]);
        }
        lemma_split_no_delim(t);
        assert(t =~= line@.subrange(start, line@.len() as int));
    }
    let ghost old_dv = r.deep_view();
    r.push(cur);
    proof {
        assert(r.deep_view() =~~= old_dv.push(cur@));
        assert(r.deep_view() =~= spec_split(line@));
    }
    r
}

/// A decimal digit.
pub open spec fn is_digit(c: char) -> bool {
    48 <= c as u32 <= 57
}

/// Nonempty and made of digits only.
pub open spec fn all_digits(s: Seq<char>) -> bool {
    s.len() > 0 && forall|k: int| 0 <= k < s.len() ==> is_digit(#[trigger] s[k])
}

/// The number the digit string denotes.
pub open spec fn digits_val(s: Seq<char>) -> int
    decreases s.len(),
{
    if s.len() == 0 {
        0
    } else {
        digits_val(s.drop_last()) * 10 + (s.last() as u32 - 48)
    }
}

/// The field is a well-formed decimal that fits one byte.
pub open spec fn parses_to_u8(s: Seq<char>) -> bool {
    all_digits(s) && digits_val(s) <= 255
}

proof fn lemma_digits_val_nonneg(s: Seq<char>)
    requires
        forall|k: int| 0 <= k < s.len() ==> is_digit(#[trigger] s[k]),
    ensures
        digits_val(s) >= 0,
    decreases s.len(),
{
    if s.len() > 0 {
        lemma_digits_val_nonneg(s.drop_last());
    }
}

proof fn lemma_digits_val_prefix_le(s: Seq<char>, i: int)
    requires
        forall|k: int| 0 <= k < s.len() ==> is_digit(#[trigger] s[k]),
        0 <= i <= s.len(),
    ensures
        digits_val(s.take(i)) <= digits_val(s),
    decreases s.len() - i,
{
    if i < s.len() {
        lemma_digits_val_prefix_le(s, i + 1);
        let p = s.take(i + 1);
        assert(p.drop_last() =~= s.take(i));
        assert(p.last() == s[i]);
        lemma_digits_val_nonneg(s.take(i));
        assert(digits_val(p) == digits_val(s.take(i)) * 10 + (s[i] as u32 - 48));
    } else {
        assert(s.take(i) =~= s);
    }
}

/// Parses a byte-sized decimal field: `Some` exactly on nonempty
/// all-digit fields whose value is at most 255.
pub fn parse_u8(field: &Vec<char>) -> (r: Option<u8>)
    ensures
        match r {
            Some(v) => parses_to_u8(field@) && v as int == digits_val(field@),
            None => !parses_to_u8(field@),
        },
{
    if field.len() == 0 {
        return None;
    }
    let mut acc: u32 = 0;
    let mut i: usize = 0;
    while i < field.len()
        invariant
            0 < field.len(),
            0 <= i <= field.len(),
            forall|k: int| 0 <= k < i ==> is_digit(#[trigger] field@[k]),
            acc as int == digits_val(field@.take(i as int)),
            acc <= 255,
        decreases field.len() - i,
    {
        let ch = field[i];
        let cv = ch as u32;
        if cv < 48 || cv > 57 {
            proof {
                assert(!is_digit(field@[i as int]));
            }
            return None;
        }
        let d = cv - 48;
        acc = acc * 10 + d;
        i = i + 1;
        proof {
            assert(is_digit(field@[i as int - 1]));
            let p = field@.take(i as int);
            assert(p.drop_last() =~= field@.take(i as int - 1));
            assert(p.last() == field@[i as int - 1]);
        }
        if acc > 255 {
            proof {
                assert forall|k: int| 0 <= k < field@.len() && !is_digit(#[trigger] field@[k])
                    implies !parses_to_u8(field@) by {}
                if all_digits(field@) {
                    lemma_digits_val_prefix_le(field@, i as int);
                }
            }
            return None;
        }
    }
    proof {
        assert(field@.take(field@.len() as int) =~= field@);
    }
    Some(acc as u8)
}

/// An event this client sends in reaction to an inbound one.
pub enum OutEvent {
    Join(Join),
    Move(Move),
}

/// Why a line could not be handled.
#[derive(PartialEq, Eq, Structural, Debug, Clone, Copy)]
pub enum ProtocolError {
    /// A recognized event is missing a required field or carries one
    /// that does not decode: the stream is desynchronized, fatal.
    MalformedEvent,
    /// A tick arrived while our own participant is not alive: no
    /// further decisions can be produced.
    SelfNotAlive,
}

/// The greeting handler's configuration: the credentials to offer.
pub struct Motd {
    pub username: String,
    pub password: String,
}

/// What the greeting handler guarantees: the state is untouched and,
/// given the message field, exactly one join event with the stored
/// credentials comes back.
pub open spec fn motd_post(
    m: Motd,
    args: Seq<Seq<char>>,
    g0: GameData,
    g1: GameData,
    r: Result<Vec<OutEvent>, ProtocolError>,
) -> bool {
    &&& g1 == g0
    &&& if args.len() >= 1 {
        match r {
            Ok(out) => out.len() == 1 && (out[0] matches OutEvent::Join(j) && j.username@
                == m.username@ && j.password@ == m.password@),
            Err(_) => false,
        }
    } else {
        r == Result::<Vec<OutEvent>, ProtocolError>::Err(ProtocolError::MalformedEvent)
    }
}

impl Motd {
    /// Answers the server's greeting with our credentials.
    pub fn execute(&self, args: &Vec<Vec<char>>, game_data: &mut GameData) -> (r: Result<
        Vec<OutEvent>,
        ProtocolError,
    >)
        ensures
            motd_post(*self, args.deep_view(), *old(game_data), *final(game_data), r),
    {
        if args.len() < 1 {
            return Err(ProtocolError::MalformedEvent);
        }
        let join = Join::new(self.username.clone(), self.password.clone());
        let mut out: Vec<OutEvent> = Vec::new();
        out.push(OutEvent::Join(join));
        Ok(out)
    }
}

/// An error report from the server: observability only.
pub struct ErrorCmd {}

pub open spec fn error_post(
    args: Seq<Seq<char>>,
    g0: GameData,
    g1: GameData,
    r: Result<Vec<OutEvent>, ProtocolError>,
) -> bool {
    &&& g1 == g0
    &&& if args.len() >= 1 {
        r matches Ok(out) && out.len() == 0
    } else {
        r == Result::<Vec<OutEvent>, ProtocolError>::Err(ProtocolError::MalformedEvent)
    }
}

impl ErrorCmd {
    /// Consumes an error report; no state change, no output.
    pub fn execute(&self, args: &Vec<Vec<char>>, game_data: &mut GameData) -> (r: Result<
        Vec<OutEvent>,
        ProtocolError,
    >)
        ensures
            error_post(args.deep_view(), *old(game_data), *final(game_data), r),
    {
        if args.len() < 1 {
            return Err(ProtocolError::MalformedEvent);
        }
        Ok(Vec::new())
    }
}

/// The end of our participation in the current game: observability only.
pub struct LoseCmd {}

pub open spec fn lose_post(
    g0: GameData,
    g1: GameData,
    r: Result<Vec<OutEvent>, ProtocolError>,
) -> bool {
    &&& g1 == g0
    &&& r matches Ok(out) && out.len() == 0
}

impl LoseCmd {
    /// Consumes a loss notice; no state change, no output.
    pub fn execute(&self, _args: &Vec<Vec<char>>, game_data: &mut GameData) -> (r: Result<
        Vec<OutEvent>,
        ProtocolError,
    >)
        ensures
            lose_post(*old(game_data), *final(game_data), r),
    {
        Ok(Vec::new())
    }
}

/// A participant registration: observability only.
pub struct PlayerCmd {}

pub open spec fn player_post(
    args: Seq<Seq<char>>,
    g0: GameData,
    g1: GameData,
    r: Result<Vec<OutEvent>, ProtocolError>,
) -> bool {
    &&& g1 == g0
    &&& if args.len() >= 2 {
        r matches Ok(out) && out.len() == 0
    } else {
        r == Result::<Vec<OutEvent>, ProtocolError>::Err(ProtocolError::MalformedEvent)
    }
}

impl PlayerCmd {
    /// Consumes a registration; no state change, no output.
    pub fn execute(&self, args: &Vec<Vec<char>>, game_data: &mut GameData) -> (r: Result<
        Vec<OutEvent>,
        ProtocolError,
    >)
        ensures
            player_post(args.deep_view(), *old(game_data), *final(game_data), r),
    {
        if args.len() < 2 {
            return Err(ProtocolError::MalformedEvent);
        }
        Ok(Vec::new())
    }
}

/// A game start: dimensions and our identifier.
pub struct GameCmd {}

pub open spec fn game_post(
    args: Seq<Seq<char>>,
    g0: GameData,
    g1: GameData,
    r: Result<Vec<OutEvent>, ProtocolError>,
) -> bool {
    if args.len() >= 3 && parses_to_u8(args[0]) && parses_to_u8(args[1]) && parses_to_u8(args[2]) {
        &&& r matches Ok(out) && out.len() == 0
        &&& g1.wf()
        &&& g1.grid_meta.width as int == digits_val(args[0])
        &&& g1.grid_meta.height as int == digits_val(args[1])
        &&& g1.own_id as int == digits_val(args[2])
        &&& g1.current_tick == 0
        &&& g1.heads() == Map::<PlayerId, Vector2>::empty()
        &&& g1.cells() == uniform_grid(digits_val(args[0]), digits_val(args[1]), PLAYER_ID_NONE)
    } else {
        &&& g1 == g0
        &&& r == Result::<Vec<OutEvent>, ProtocolError>::Err(ProtocolError::MalformedEvent)
    }
}

impl GameCmd {
    /// Resets the whole state for a new game.
    pub fn execute(&self, args: &Vec<Vec<char>>, game_data: &mut GameData) -> (r: Result<
        Vec<OutEvent>,
        ProtocolError,
    >)
        ensures
            game_post(args.deep_view(), *old(game_data), *final(game_data), r),
    {
        proof {
            assert forall|k: int| 0 <= k < args@.len() implies args.deep_view()[k]
                == (#[trigger] args@[k])@ by {}
        }
        if args.len() < 3 {
            return Err(ProtocolError::MalformedEvent);
        }
        let width = match parse_u8(&args[0]) {
            Some(v) => v,
            None => { return Err(ProtocolError::MalformedEvent) },
        };
        let height = match parse_u8(&args[1]) {
            Some(v) => v,
            None => { return Err(ProtocolError::MalformedEvent) },
        };
        let own_id = match parse_u8(&args[2]) {
            Some(v) => v,
            None => { return Err(ProtocolError::MalformedEvent) },
        };
        game_data.reset(width, height, own_id);
        proof {
            assert(game_data.cells() =~= uniform_grid(
                digits_val(args.deep_view()[0]),
                digits_val(args.deep_view()[1]),
                PLAYER_ID_NONE,
            ));
        }
        Ok(Vec::new())
    }
}

/// A position report for one participant.
pub struct PosCmd {}

pub open spec fn pos_post(
    args: Seq<Seq<char>>,
    g0: GameData,
    g1: GameData,
    r: Result<Vec<OutEvent>, ProtocolError>,
) -> bool {
    if args.len() >= 3 && parses_to_u8(args[0]) && parses_to_u8(args[1]) && parses_to_u8(args[2])
        && digits_val(args[1]) < g0.grid_meta.width && digits_val(args[2]) < g0.grid_meta.height {
        let pid = digits_val(args[0]) as PlayerId;
        let x = digits_val(args[1]);
        let y = digits_val(args[2]);
        &&& r matches Ok(out) && out.len() == 0
        &&& g1.wf()
        &&& g1.cells() == g0.cells().insert((x, y), pid)
        &&& g1.heads() == g0.heads().insert(pid, Vector2 { x: x as u8, y: y as u8 })
        &&& g1.grid_meta == g0.grid_meta
        &&& g1.own_id == g0.own_id
        &&& g1.current_tick == g0.current_tick
    } else {
        &&& g1 == g0
        &&& r == Result::<Vec<OutEvent>, ProtocolError>::Err(ProtocolError::MalformedEvent)
    }
}

impl PosCmd {
    /// Records a reported position: one occupancy cell and the head.
    pub fn execute(&self, args: &Vec<Vec<char>>, game_data: &mut GameData) -> (r: Result<
        Vec<OutEvent>,
        ProtocolError,
    >)
        requires
            old(game_data).wf(),
        ensures
            pos_post(args.deep_view(), *old(game_data), *final(game_data), r),
    {
        proof {
            assert forall|k: int| 0 <= k < args@.len() implies args.deep_view()[k]
                == (#[trigger] args@[k])@ by {}
        }
        if args.len() < 3 {
            return Err(ProtocolError::MalformedEvent);
        }
        let player_id = match parse_u8(&args[0]) {
            Some(v) => v,
            None => { return Err(ProtocolError::MalformedEvent) },
        };
        let pos_x = match parse_u8(&args[1]) {
            Some(v) => v,
            None => { return Err(ProtocolError::MalformedEvent) },
        };
        let pos_y = match parse_u8(&args[2]) {
            Some(v) => v,
            None => { return Err(ProtocolError::MalformedEvent) },
        };
        if pos_x >= game_data.grid_meta.width || pos_y >= game_data.grid_meta.height {
            return Err(ProtocolError::MalformedEvent);
        }
        game_data.update_player_pos(player_id, pos_x, pos_y);
        Ok(Vec::new())
    }
}

/// One tick: decide a move.
pub struct Tick {}

pub open spec fn tick_post(
    g0: GameData,
    g1: GameData,
    r: Result<Vec<OutEvent>, ProtocolError>,
) -> bool {
    if g0.heads().contains_key(g0.own_id) {
        &&& g1.cells() == g0.cells()
        &&& g1.heads() == g0.heads()
        &&& g1.grid_meta == g0.grid_meta
        &&& g1.own_id == g0.own_id
        &&& g1.current_tick == g0.current_tick + 1
        &&& g1.wf()
        &&& match r {
            Ok(out) => out.len() == 1 && (out[0] matches OutEvent::Move(m) && m.direction
                == pick_direction(eval_counts(g0))),
            Err(_) => false,
        }
    } else {
        &&& g1 == g0
        &&& r == Result::<Vec<OutEvent>, ProtocolError>::Err(ProtocolError::SelfNotAlive)
    }
}

impl Tick {
    /// Advances the tick counter and emits the decided move.  A tick
    /// with our participant dead is a terminal condition.
    pub fn execute(&self, game_data: &mut GameData) -> (r: Result<Vec<OutEvent>, ProtocolError>)
        requires
            old(game_data).wf(),
            old(game_data).current_tick < u64::MAX,
        ensures
            tick_post(*old(game_data), *final(game_data), r),
    {
        let own_key = game_data.own_id;
        if !game_data.player_heads.contains_key(&own_key) {
            return Err(ProtocolError::SelfNotAlive);
        }
        game_data.current_tick = game_data.current_tick + 1;
        proof {
            assert(old(game_data).heads().contains_key(old(game_data).own_id));
            let head = old(game_data).heads()[old(game_data).own_id];
            assert(crate::util::in_range(
                old(game_data).grid_meta.width as int,
                old(game_data).grid_meta.height as int,
                head@,
            ));
            assert(game_data.grid_meta.width > 0 && game_data.grid_meta.height > 0);
            assert(eval_counts(*game_data) =~= eval_counts(*old(game_data)));
            assert(crate::decide::eval_head_counts(*game_data) =~= crate::decide::eval_head_counts(
                *old(game_data),
            ));
        }
        let decision = decide(game_data);
        let mut out: Vec<OutEvent> = Vec::new();
        out.push(OutEvent::Move(Move { direction: decision.0 }));
        Ok(out)
    }
}

/// A death notice carrying the identifiers of the fallen.
pub struct Die {}

/// The identifiers a death notice names, in order.
pub open spec fn die_ids(args: Seq<Seq<char>>) -> Seq<PlayerId> {
    Seq::new(args.len(), |i: int| digits_val(args[i]) as PlayerId)
}

/// The state after removing each named participant in order.
pub open spec fn spec_remove_ids(
    cells: Map<(int, int), PlayerId>,
    heads: Map<PlayerId, Vector2>,
    ids: Seq<PlayerId>,
) -> (Map<(int, int), PlayerId>, Map<PlayerId, Vector2>)
    decreases ids.len(),
{
    if ids.len() == 0 {
        (cells, heads)
    } else {
        spec_remove_ids(
            spec_clear_participant(cells, ids[0]),
            heads.remove(ids[0]),
            ids.skip(1),
        )
    }
}

pub open spec fn die_post(
    args: Seq<Seq<char>>,
    g0: GameData,
    g1: GameData,
    r: Result<Vec<OutEvent>, ProtocolError>,
) -> bool {
    if forall|k: int| 0 <= k < args.len() ==> parses_to_u8(#[trigger] args[k]) {
        &&& r matches Ok(out) && out.len() == 0
        &&& (g1.cells(), g1.heads()) == spec_remove_ids(g0.cells(), g0.heads(), die_ids(args))
        &&& g1.grid_meta == g0.grid_meta
        &&& g1.own_id == g0.own_id
        &&& g1.current_tick == g0.current_tick
        &&& g1.wf()
    } else {
        &&& g1 == g0
        &&& r == Result::<Vec<OutEvent>, ProtocolError>::Err(ProtocolError::MalformedEvent)
    }
}

impl Die {
    /// Removes every named participant: head gone, trail cleared.
    pub fn execute(&self, args: &Vec<Vec<char>>, game_data: &mut GameData) -> (r: Result<
        Vec<OutEvent>,
        ProtocolError,
    >)
        requires
            old(game_data).wf(),
        ensures
            die_post(args.deep_view(), *old(game_data), *final(game_data), r),
    {
        proof {
            assert forall|k: int| 0 <= k < args@.len() implies args.deep_view()[k]
                == (#[trigger] args@[k])@ by {}
        }
        let mut ids: Vec<PlayerId> = Vec::new();
        let mut i: usize = 0;
        while i < args.len()
            invariant
                0 <= i <= args.len(),
                ids@.len() == i,
                forall|k: int| 0 <= k < i ==> parses_to_u8(#[trigger] args.deep_view()[k]),
                forall|k: int| 0 <= k < i ==> ids@[k] == die_ids(args.deep_view())[k],
            decreases args.len() - i,
        {
            match parse_u8(&args[i]) {
                Some(v) => {
                    proof {
                        assert(args.deep_view()[i as int] == args@[i as int]@);
                        assert(parses_to_u8(args.deep_view()[i as int]));
                        assert(v == die_ids(args.deep_view())[i as int]);
                    }
                    ids.push(v);
                },
                None => {
                    proof {
                        assert(args.deep_view()[i as int] == args@[i as int]@);
                        assert(!parses_to_u8(args.deep_view()[i as int]));
                    }
                    return Err(ProtocolError::MalformedEvent);
                },
            }
            i = i + 1;
        }
        proof {
            assert(ids@ =~= die_ids(args.deep_view()));
        }
        let ghost c0 = game_data.cells();
        let ghost h0 = game_data.heads();
        proof {
            assert(ids@.skip(0) =~= ids@);
        }
        let mut k: usize = 0;
        while k < ids.len()
            invariant
                0 <= k <= ids@.len(),
                game_data.wf(),
                game_data.grid_meta == old(game_data).grid_meta,
                game_data.own_id == old(game_data).own_id,
                game_data.current_tick == old(game_data).current_tick,
                spec_remove_ids(c0, h0, ids@) == spec_remove_ids(
                    game_data.cells(),
                    game_data.heads(),
                    ids@.skip(k as int),
                ),
            decreases ids@.len() - k,
        {
            let ghost rest = ids@.skip(k as int);
            proof {
                assert(rest[0] == ids@[k as int]);
                assert(rest.skip(1) =~= ids@.skip(k as int + 1));
            }
            game_data.remove_participant(ids[k]);
            k = k + 1;
        }
        proof {
            assert(ids@.skip(ids@.len() as int) =~= Seq::<PlayerId>::empty());
        }
        Ok(Vec::new())
    }
}

/// Compares a field with a three-character name.
fn eq3(f: &Vec<char>, a: char, b: char, c: char) -> (r: bool)
    ensures
        r == (f@ == seq![a, b, c]),
{
    let r = f.len() == 3 && f[0] == a && f[1] == b && f[2] == c;
    proof {
        if r {
            assert(f@ =~= seq![a, b, c]);
        }
    }
    r
}

/// Compares a field with a four-character name.
fn eq4(f: &Vec<char>, a: char, b: char, c: char, d: char) -> (r: bool)
    ensures
        r == (f@ == seq![a, b, c, d]),
{
    let r = f.len() == 4 && f[0] == a && f[1] == b && f[2] == c && f[3] == d;
    proof {
        if r {
            assert(f@ =~= seq![a, b, c, d]);
        }
    }
    r
}

/// Compares a field with a five-character name.
fn eq5(f: &Vec<char>, a: char, b: char, c: char, d: char, e: char) -> (r: bool)
    ensures
        r == (f@ == seq![a, b, c, d, e]),
{
    let r = f.len() == 5 && f[0] == a && f[1] == b && f[2] == c && f[3] == d && f[4] == e;
    proof {
        if r {
            assert(f@ =~= seq![a, b, c, d, e]);
        }
    }
    r
}

/// Compares a field with a six-character name.
fn eq6(f: &Vec<char>, a: char, b: char, c: char, d: char, e: char, g: char) -> (r: bool)
    ensures
        r == (f@ == seq![a, b, c, d, e, g]),
{
    let r = f.len() == 6 && f[0] == a && f[1] == b && f[2] == c && f[3] == d && f[4] == e && f[5]
        == g;
    proof {
        if r {
            assert(f@ =~= seq![a, b, c, d, e, g]);
        }
    }
    r
}

/// What the dispatcher guarantees for a decoded line, by event name.
/// An unrecognized name, including the empty line's empty field,
/// changes nothing and produces nothing.
pub open spec fn dispatch_post(
    m: Motd,
    fields: Seq<Seq<char>>,
    g0: GameData,
    g1: GameData,
    r: Result<Vec<OutEvent>, ProtocolError>,
) -> bool {
    let name = fields[0];
    let args = fields.skip(1);
    if name == seq!['m', 'o', 't', 'd'] {
        motd_post(m, args, g0, g1, r)
    } else if name == seq!['e', 'r', 'r', 'o', 'r'] {
        error_post(args, g0, g1, r)
    } else if name == seq!['l', 'o', 's', 'e'] {
        lose_post(g0, g1, r)
    } else if name == seq!['p', 'l', 'a', 'y', 'e', 'r'] {
        player_post(args, g0, g1, r)
    } else if name == seq!['g', 'a', 'm', 'e'] {
        game_post(args, g0, g1, r)
    } else if name == seq!['p', 'o', 's'] {
        pos_post(args, g0, g1, r)
    } else if name == seq!['t', 'i', 'c', 'k'] {
        tick_post(g0, g1, r)
    } else if name == seq!['d', 'i', 'e'] {
        die_post(args, g0, g1, r)
    } else {
        g1 == g0 && (r matches Ok(out) && out.len() == 0)
    }
}

/// Routes one decoded line to its handler.  The line is the raw text
/// without its terminating newline; its first `|`-separated field is
/// the event name.
pub fn dispatch_line(motd: &Motd, game_data: &mut GameData, line: &Vec<char>) -> (r: Result<
    Vec<OutEvent>,
    ProtocolError,
>)
    requires
        old(game_data).wf(),
        old(game_data).current_tick < u64::MAX,
    ensures
        final(game_data).wf(),
        dispatch_post(*motd, spec_split(line@), *old(game_data), *final(game_data), r),
{
    let mut fields = split_fields(line);
    let code = fields.remove(0);
    let args = fields;
    proof {
        assert(args.deep_view() =~= spec_split(line@).skip(1));
        assert(code@ == spec_split(line@)[0]);
    }
    if eq4(&code, 'm', 'o', 't', 'd') {
        motd.execute(&args, game_data)
    } else if eq5(&code, 'e', 'r', 'r', 'o', 'r') {
        (ErrorCmd {}).execute(&args, game_data)
    } else if eq4(&code, 'l', 'o', 's', 'e') {
        (LoseCmd {}).execute(&args, game_data)
    } else if eq6(&code, 'p', 'l', 'a', 'y', 'e', 'r') {
        (PlayerCmd {}).execute(&args, game_data)
    } else if eq4(&code, 'g', 'a', 'm', 'e') {
        (GameCmd {}).execute(&args, game_data)
    } else if eq3(&code, 'p', 'o', 's') {
        (PosCmd {}).execute(&args, game_data)
    } else if eq4(&code, 't', 'i', 'c', 'k') {
        (Tick {}).execute(game_data)
    } else if eq3(&code, 'd', 'i', 'e') {
        (Die {}).execute(&args, game_data)
    } else {
        Ok(Vec::new())
    }
}

/// The handlers' shared configuration, as one value: the credentials
/// the greeting handler answers with.
pub fn get_mappers(username: String, password: String) -> (r: Motd)
    ensures
        r.username == username,
        r.password == password,
{
    Motd { username, password }
}

} // verus!
