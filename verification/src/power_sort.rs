//! The power level of the sender of an event, before the state of the room is
//! known.

use crate::ids::{texts, IdSet};
use crate::text::same;
use vstd::prelude::*;

verus! {

/// Whether a text is a valid event id.
pub uninterp spec fn is_event_id(text: Seq<char>) -> bool;

/// `ruma::EventId::parse`. The contract claims that whether a text is a valid
/// event id depends on nothing but the text, and that without a colon in it all
/// it takes is the sigil. Which server names may follow a colon is not stated.
#[verifier::external_body]
fn valid_event_id(text: &str) -> (valid: bool)
    ensures
        valid == is_event_id(text@),
        !text@.contains(':') ==> valid == (text@.len() > 0 && text@[0] == '$'),
{
    ruma::EventId::parse(text).is_ok()
}

/// The room id is not made of an event id.
#[derive(Clone, Copy, Debug, PartialEq, Eq, Structural)]
pub struct NotAnEventId;

/// The event id that a room id is made of: its sigil gives way to that of an
/// event id.
pub open spec fn event_id_of_room(room_id: Seq<char>) -> Option<Seq<char>> {
    if room_id.len() > 0 && room_id[0] == '!' && is_event_id("$"@ + room_id.skip(1)) {
        Some("$"@ + room_id.skip(1))
    } else {
        None
    }
}

/// The id of the event that created a room, for the room versions in which the
/// room id is made of it.
pub fn create_event_id(room_id: &str) -> (r: Result<String, NotAnEventId>)
    ensures
        match r {
            Ok(id) => event_id_of_room(room_id@) == Some(id@),
            Err(_) => event_id_of_room(room_id@) is None,
        },
        room_id@.len() > 0 && room_id@[0] == '!' && !room_id@.contains(':') ==> r is Ok,
{
    let n = room_id.unicode_len();
    if n == 0 {
        return Err(NotAnEventId);
    }
    if room_id.get_char(0) != '!' {
        return Err(NotAnEventId);
    }
    let mut id = "$".to_owned();
    id.append(room_id.substring_char(1, n));
    proof {
        reveal_strlit("$");
        assert(room_id@.subrange(1, n as int) =~= room_id@.skip(1));
        if id@.contains(':') {
            let i = choose|i: int| 0 <= i < id@.len() && id@[i] == ':';
            assert(room_id@[i] == ':');
        }
    }
    if valid_event_id(id.as_str()) {
        Ok(id)
    } else {
        Err(NotAnEventId)
    }
}

/// An auth event that was fetched: what says what it is about, and the event
/// itself.
pub struct AuthEvent<P> {
    pub kind: String,
    pub state_key: Option<String>,
    pub pdu: P,
}

impl<P> AuthEvent<P> {
    /// Whether the event has the given type and an empty state key.
    pub open spec fn is_room_wide(self, kind: Seq<char>) -> bool {
        self.kind@ == kind && (self.state_key matches Some(key) && key@ == ""@)
    }

    fn has_kind(&self, kind: &str) -> (has: bool)
        ensures
            has == self.is_room_wide(kind@),
    {
        match &self.state_key {
            Some(key) => same(self.kind.as_str(), kind) && same(key.as_str(), ""),
            None => false,
        }
    }
}

/// An event of an auth chain that was fetched, with the ids of its own auth
/// events.
pub struct ChainEvent<P> {
    pub event: AuthEvent<P>,
    pub auth_events: Vec<String>,
}

/// What fetching an event by its id gives; nothing where that fails.
pub type Fetch<P> = spec_fn(Seq<char>) -> Option<ChainEvent<P>>;

/// A list with more ids at its end, as far as they are not in it yet.
pub open spec fn extended(list: Seq<Seq<char>>, more: Seq<Seq<char>>) -> Seq<Seq<char>>
    decreases more.len(),
{
    if more.len() == 0 {
        list
    } else {
        let front = extended(list, more.drop_last());
        if front.contains(more.last()) {
            front
        } else {
            front.push(more.last())
        }
    }
}

/// How far a walk has come.
pub struct WalkView<P> {
    /// Whether the creation of the room is known by the room id, so that the
    /// walk does not look for it.
    pub hydra_room_id: bool,
    pub create: Option<P>,
    pub power_levels: Option<P>,
    /// The ids of the auth chain that the walk knows of, in the order in which
    /// it visits them.
    pub order: Seq<Seq<char>>,
    /// How many of them are auth events of the event itself; these come first.
    pub direct: nat,
    /// How many of them have been visited.
    pub visited: nat,
}

impl<P> WalkView<P> {
    /// Whether there is nothing left to look for: the power levels are found,
    /// and the creation of the room is found or none of the auth events of the
    /// event itself.
    pub open spec fn settled(self) -> bool {
        self.power_levels is Some && (self.create is Some || self.visited >= self.direct)
    }

    /// Whether the walk goes on.
    pub open spec fn goes_on(self) -> bool {
        !self.settled() && self.visited < self.order.len()
    }

    /// The id of the event that the walk visits next.
    pub open spec fn wanted(self) -> Seq<char> {
        self.order[self.visited as int]
    }

    /// The walk after its next visit. An event that could not be fetched is
    /// passed over. The first power levels stay, and so does the first creation
    /// of the room, which is looked for among the auth events of the event
    /// itself. The auth events of the visited event are visited after all that
    /// are known already.
    pub open spec fn stepped(self, fetched: Option<ChainEvent<P>>) -> WalkView<P> {
        let next = WalkView { visited: self.visited + 1, ..self };
        match fetched {
            None => next,
            Some(chain) => WalkView {
                create: if self.create is None && !self.hydra_room_id && self.visited < self.direct
                    && chain.event.is_room_wide("m.room.create"@) {
                    Some(chain.event.pdu)
                } else {
                    self.create
                },
                power_levels: if self.power_levels is None && chain.event.is_room_wide("m.room.power_levels"@) {
                    Some(chain.event.pdu)
                } else {
                    self.power_levels
                },
                order: extended(self.order, texts(chain.auth_events@)),
                ..next
            },
        }
    }

    /// The walk after as many visits as it makes, up to a number.
    pub open spec fn walked(self, fetch: Fetch<P>, visits: nat) -> WalkView<P>
        decreases visits,
    {
        if visits == 0 {
            self
        } else {
            let walk = self.walked(fetch, (visits - 1) as nat);
            if walk.goes_on() {
                walk.stepped(fetch(walk.wanted()))
            } else {
                walk
            }
        }
    }
}

/// A walk that begins at an event with these auth events, in a room whose
/// creation may be known by the room id.
pub open spec fn begun<P>(create: Option<P>, auth_events: Seq<Seq<char>>) -> WalkView<P> {
    WalkView {
        hydra_room_id: create is Some,
        create,
        power_levels: None,
        order: extended(seq![], auth_events),
        direct: extended(seq![], auth_events).len(),
        visited: 0,
    }
}

/// A walk back through the auth chain of an event, in search of the most recent
/// power levels and of the creation of the room.
pub struct SenderWalk<P> {
    hydra_room_id: bool,
    create: Option<P>,
    power_levels: Option<P>,
    chain: IdSet,
    direct: usize,
    visited: usize,
}

impl<P> View for SenderWalk<P> {
    type V = WalkView<P>;

    closed spec fn view(&self) -> WalkView<P> {
        WalkView {
            hydra_room_id: self.hydra_room_id,
            create: self.create,
            power_levels: self.power_levels,
            order: self.chain.listed(),
            direct: self.direct as nat,
            visited: self.visited as nat,
        }
    }
}

/// Adds ids to the end of a chain, as far as they are not in it yet.
fn extend_chain(chain: &mut IdSet, more: &Vec<String>)
    requires
        old(chain).wf(),
    ensures
        final(chain).wf(),
        final(chain).listed() == extended(old(chain).listed(), texts(more@)),
{
    let ghost start = chain.listed();
    let ghost list = texts(more@);
    let mut i: usize = 0;
    assert(extended(start, list.take(0)) =~= start);
    while i < more.len()
        invariant
            i <= more@.len(),
            list == texts(more@),
            chain.wf(),
            chain.listed() == extended(start, list.take(i as int)),
        decreases more.len() - i,
    {
        let ghost front = chain.listed();
        chain.insert(more[i].as_str());
        proof {
            assert(list.take(i + 1).drop_last() =~= list.take(i as int));
            assert(list.take(i + 1).last() == list[i as int]);
            assert(front.to_set().contains(list[i as int]) == front.contains(list[i as int]));
        }
        i += 1;
    }
    assert(list.take(i as int) =~= list);
}

impl<P> SenderWalk<P> {
    pub closed spec fn wf(self) -> bool {
        self.chain.wf() && self.visited <= self.chain.listed().len()
    }

    fn begin(create: Option<P>, auth_events: &Vec<String>) -> (walk: SenderWalk<P>)
        ensures
            walk.wf(),
            walk@ == begun(create, texts(auth_events@)),
    {
        let mut chain = IdSet::new();
        extend_chain(&mut chain, auth_events);
        proof {
            chain.listed().unique_seq_to_set();
            assert(Seq::<Seq<char>>::empty() =~= seq![]);
        }
        let direct = chain.len();
        SenderWalk { hydra_room_id: create.is_some(), create, power_levels: None, chain, direct, visited: 0 }
    }

    /// A walk that has to find both, from an event with these auth events.
    pub fn new(auth_events: &Vec<String>) -> (walk: SenderWalk<P>)
        ensures
            walk.wf(),
            walk@ == begun::<P>(None, texts(auth_events@)),
    {
        SenderWalk::begin(None, auth_events)
    }

    /// A walk for a room whose creation is known by the room id.
    pub fn with_create(create: P, auth_events: &Vec<String>) -> (walk: SenderWalk<P>)
        ensures
            walk.wf(),
            walk@ == begun(Some(create), texts(auth_events@)),
    {
        SenderWalk::begin(Some(create), auth_events)
    }

    /// The creation of the room, as far as it is found.
    pub fn create(&self) -> (create: Option<&P>)
        ensures
            match create {
                Some(pdu) => self@.create == Some(*pdu),
                None => self@.create is None,
            },
    {
        self.create.as_ref()
    }

    /// The power levels, as far as they are found.
    pub fn power_levels(&self) -> (power_levels: Option<&P>)
        ensures
            match power_levels {
                Some(pdu) => self@.power_levels == Some(*pdu),
                None => self@.power_levels is None,
            },
    {
        self.power_levels.as_ref()
    }

    /// The id of the event to fetch next, until the walk is over.
    pub fn next_id(&self) -> (id: Option<&String>)
        requires
            self.wf(),
        ensures
            match id {
                Some(id) => self@.goes_on() && id@ == self@.wanted(),
                None => !self@.goes_on(),
            },
    {
        if self.power_levels.is_some() && (self.create.is_some() || self.visited >= self.direct) {
            return None;
        }
        proof {
            self.chain.listed().unique_seq_to_set();
        }
        if self.visited < self.chain.len() {
            Some(self.chain.member(self.visited))
        } else {
            None
        }
    }

    /// Takes what fetching the event of [`SenderWalk::next_id`] gave into
    /// account.
    pub fn step(&mut self, fetched: Option<ChainEvent<P>>)
        requires
            old(self).wf(),
            old(self)@.goes_on(),
        ensures
            final(self).wf(),
            final(self)@ == old(self)@.stepped(fetched),
    {
        let is_direct = self.visited < self.direct;
        proof {
            self.chain.lemma_listed_len();
        }
        self.visited += 1;
        match fetched {
            None => {},
            Some(ChainEvent { event, auth_events }) => {
                proof {
                    lemma_extended(self.chain.listed(), texts(auth_events@));
                    lemma_kinds_differ();
                }
                extend_chain(&mut self.chain, &auth_events);
                if event.has_kind("m.room.create") {
                    if self.create.is_none() && !self.hydra_room_id && is_direct {
                        self.create = Some(event.pdu);
                    }
                } else if event.has_kind("m.room.power_levels") {
                    if self.power_levels.is_none() {
                        self.power_levels = Some(event.pdu);
                    }
                }
            },
        }
    }
}

/// What to ask for, once the walk is over.
pub enum PowerQuery<'a, P, C> {
    /// The power level of the sender, by these power levels and in a room with
    /// these creators.
    OfSender { power_levels: Option<&'a P>, creators: C },
    /// The power level that users have by default, by these power levels.
    UsersDefault { power_levels: Option<&'a P> },
}

/// What to ask for, by the power levels that the walk has found: without a
/// creation of the room at hand the default level of users, and otherwise the
/// level of the sender among its creators. A malformed creation of the room is
/// an error.
pub fn power_query<'a, P, C, E>(power_levels: Option<&'a P>, creators: Option<Result<C, E>>) -> (r: Result<
    PowerQuery<'a, P, C>,
    E,
>)
    ensures
        r == (match creators {
            None => Ok::<PowerQuery<'a, P, C>, E>(PowerQuery::UsersDefault { power_levels }),
            Some(Ok(creators)) => Ok(PowerQuery::OfSender { power_levels, creators }),
            Some(Err(e)) => Err(e),
        }),
{
    match creators {
        None => Ok(PowerQuery::UsersDefault { power_levels }),
        Some(Ok(creators)) => Ok(PowerQuery::OfSender { power_levels, creators }),
        Some(Err(e)) => Err(e),
    }
}

proof fn lemma_kinds_differ()
    ensures
        "m.room.create"@ != "m.room.power_levels"@,
{
    reveal_strlit("m.room.create");
    reveal_strlit("m.room.power_levels");
    assert("m.room.create"@.len() != "m.room.power_levels"@.len());
}

/// What a list is once it has been extended: what it was, then new ids, all of
/// them wanted and none of them twice.
proof fn lemma_extended(list: Seq<Seq<char>>, more: Seq<Seq<char>>)
    ensures
        extended(list, more).len() >= list.len(),
        extended(list, more).take(list.len() as int) == list,
        list.no_duplicates() ==> extended(list, more).no_duplicates(),
        forall|id: Seq<char>| #[trigger]
            extended(list, more).contains(id) <==> list.contains(id) || more.contains(id),
        forall|i: int| list.len() <= i < extended(list, more).len() ==> more.contains(#[trigger] extended(list, more)[i]),
    decreases more.len(),
{
    let whole = extended(list, more);
    if more.len() == 0 {
        assert(whole.take(list.len() as int) =~= list);
    } else {
        let rest = more.drop_last();
        let front = extended(list, rest);
        lemma_extended(list, rest);
        assert(more[more.len() - 1] == more.last());
        assert forall|id: Seq<char>| rest.contains(id) implies more.contains(id) by {
            let k = choose|k: int| 0 <= k < rest.len() && rest[k] == id;
            assert(more[k] == id);
        }
        assert forall|id: Seq<char>| #[trigger] whole.contains(id) <==> list.contains(id) || more.contains(id) by {
            if more.contains(id) {
                let k = choose|k: int| 0 <= k < more.len() && more[k] == id;
                if k < rest.len() {
                    assert(rest[k] == id);
                }
            }
            assert(whole.contains(id) <==> front.contains(id) || id == more.last()) by {
                if !front.contains(more.last()) {
                    assert(whole[front.len() as int] == more.last());
                    if front.contains(id) {
                        let k = choose|k: int| 0 <= k < front.len() && front[k] == id;
                        assert(whole[k] == id);
                    }
                }
            }
            assert(front.contains(id) <==> list.contains(id) || rest.contains(id));
        }
        assert(whole.take(list.len() as int) =~= front.take(list.len() as int));
        assert forall|i: int| list.len() <= i < whole.len() implies more.contains(#[trigger] whole[i]) by {
            if i < front.len() {
                assert(whole[i] == front[i]);
                assert(rest.contains(front[i]));
            }
        }
    }
}

/// The first event of a kind that fetching ids in their order gives, if any.
pub open spec fn first_found<P>(ids: Seq<Seq<char>>, fetch: Fetch<P>, kind: Seq<char>) -> Option<P>
    decreases ids.len(),
{
    if ids.len() == 0 {
        None
    } else {
        match first_found(ids.drop_last(), fetch, kind) {
            Some(pdu) => Some(pdu),
            None => match fetch(ids.last()) {
                Some(chain) => if chain.event.is_room_wide(kind) {
                    Some(chain.event.pdu)
                } else {
                    None
                },
                None => None,
            },
        }
    }
}

/// Whether fetching an id gives an event of a kind.
pub open spec fn is_found<P>(fetch: Fetch<P>, kind: Seq<char>, id: Seq<char>) -> bool {
    fetch(id) matches Some(chain) && chain.event.is_room_wide(kind)
}

/// Whether fetching an id gives an event that names another as an auth event.
pub open spec fn names<P>(fetch: Fetch<P>, by: Seq<char>, id: Seq<char>) -> bool {
    fetch(by) matches Some(chain) && texts(chain.auth_events@).contains(id)
}

/// Whether an id is in the auth chain of an event with these auth events, no
/// more than a number of steps behind them.
pub open spec fn reaches<P>(auth_events: Seq<Seq<char>>, fetch: Fetch<P>, id: Seq<char>, steps: nat) -> bool
    decreases steps,
{
    auth_events.contains(id) || (steps > 0 && exists|by: Seq<char>| #[trigger]
        names(fetch, by, id) && reaches(auth_events, fetch, by, (steps - 1) as nat))
}

/// Whether an id is in the auth chain of an event with these auth events.
pub open spec fn in_chain<P>(auth_events: Seq<Seq<char>>, fetch: Fetch<P>, id: Seq<char>) -> bool {
    exists|steps: nat| reaches(auth_events, fetch, id, steps)
}

/// One more id, and the first event of a kind that the ids give.
proof fn lemma_first_found_of_more<P>(ids: Seq<Seq<char>>, fetch: Fetch<P>, kind: Seq<char>, n: int)
    requires
        0 <= n < ids.len(),
    ensures
        first_found(ids.take(n + 1), fetch, kind) == match first_found(ids.take(n), fetch, kind) {
            Some(pdu) => Some(pdu),
            None => if is_found(fetch, kind, ids[n]) {
                Some(fetch(ids[n])->Some_0.event.pdu)
            } else {
                None
            },
        },
{
    assert(ids.take(n + 1).drop_last() =~= ids.take(n));
    assert(ids.take(n + 1).last() == ids[n]);
}

/// Where the first event of a kind stands among the ids.
proof fn lemma_place_of_first_found<P>(ids: Seq<Seq<char>>, fetch: Fetch<P>, kind: Seq<char>) -> (place: int)
    ensures
        first_found(ids, fetch, kind) is None <==> forall|i: int|
            0 <= i < ids.len() ==> !is_found(fetch, kind, #[trigger] ids[i]),
        first_found(ids, fetch, kind) matches Some(pdu) ==> {
            &&& 0 <= place < ids.len()
            &&& is_found(fetch, kind, ids[place])
            &&& pdu == fetch(ids[place])->Some_0.event.pdu
            &&& forall|i: int| 0 <= i < place ==> !is_found(fetch, kind, #[trigger] ids[i])
        },
    decreases ids.len(),
{
    if ids.len() == 0 {
        0
    } else {
        let front = ids.drop_last();
        let place = lemma_place_of_first_found(front, fetch, kind);
        assert forall|i: int| 0 <= i < front.len() implies front[i] == #[trigger] ids[i] by {}
        if first_found(front, fetch, kind) is Some {
            assert(front[place] == ids[place]);
            assert(first_found(ids, fetch, kind) is Some);
            place
        } else {
            assert forall|i: int| 0 <= i < front.len() implies !is_found(fetch, kind, #[trigger] ids[i]) by {
                assert(!is_found(fetch, kind, front[i]));
            }
            ids.len() - 1
        }
    }
}

/// What is found first does not depend on ids that are listed again.
proof fn lemma_repeats_find_nothing_new<P>(ids: Seq<Seq<char>>, fetch: Fetch<P>, kind: Seq<char>)
    ensures
        first_found(extended(seq![], ids), fetch, kind) == first_found(ids, fetch, kind),
    decreases ids.len(),
{
    if ids.len() > 0 {
        let front = extended(seq![], ids.drop_last());
        let whole = extended(seq![], ids);
        lemma_repeats_find_nothing_new(ids.drop_last(), fetch, kind);
        if front.contains(ids.last()) {
            let i = choose|i: int| 0 <= i < front.len() && front[i] == ids.last();
            let place = lemma_place_of_first_found(front, fetch, kind);
            if first_found(front, fetch, kind) is None {
                assert(!is_found(fetch, kind, front[i]));
            }
        } else {
            assert(whole.drop_last() =~= front);
        }
    }
}

/// What holds of a walk after any number of visits.
proof fn lemma_walk<P>(create: Option<P>, auth_events: Seq<Seq<char>>, fetch: Fetch<P>, visits: nat)
    ensures
        ({
            let walk = begun(create, auth_events).walked(fetch, visits);
            let direct = extended(seq![], auth_events);
            &&& walk.hydra_room_id == create is Some
            &&& walk.order.no_duplicates()
            &&& walk.visited <= walk.order.len()
            &&& walk.visited <= visits
            &&& walk.goes_on() ==> walk.visited == visits
            &&& walk.direct == direct.len() <= walk.order.len()
            &&& walk.order.take(direct.len() as int) == direct
            &&& walk.power_levels == first_found(
                walk.order.take(walk.visited as int),
                fetch,
                "m.room.power_levels"@,
            )
            &&& walk.create == if create is Some {
                create
            } else if walk.visited < walk.direct {
                first_found(walk.order.take(walk.visited as int), fetch, "m.room.create"@)
            } else {
                first_found(direct, fetch, "m.room.create"@)
            }
        }),
    decreases visits,
{
    let direct = extended(seq![], auth_events);
    let walk = begun(create, auth_events).walked(fetch, visits);
    if visits == 0 {
        lemma_extended(seq![], auth_events);
        assert(direct.take(direct.len() as int) =~= direct);
        assert(direct.take(0) =~= seq![]);
    } else {
        let prior = begun(create, auth_events).walked(fetch, (visits - 1) as nat);
        lemma_walk(create, auth_events, fetch, (visits - 1) as nat);
        if prior.goes_on() {
            let n = prior.visited as int;
            let id = prior.wanted();
            match fetch(id) {
                Some(chain) => {
                    lemma_extended(prior.order, texts(chain.auth_events@));
                },
                None => {
                    assert(walk.order.take(prior.order.len() as int) =~= prior.order);
                },
            }
            let known = prior.order.len() as int;
            assert(walk.order.take(known) == prior.order);
            assert(walk.order[n] == walk.order.take(known)[n]);
            assert(walk.order.take(n) =~= prior.order.take(n)) by {
                assert(walk.order.take(n) =~= walk.order.take(known).take(n));
            }
            assert(walk.order.take(direct.len() as int) =~= walk.order.take(known).take(direct.len() as int));
            lemma_first_found_of_more(walk.order, fetch, "m.room.power_levels"@, n);
            lemma_first_found_of_more(walk.order, fetch, "m.room.create"@, n);
        }
    }
}

/// A walk finds the first power levels in its order, among all that it has
/// visited. Once it is over, it has found the creation of the room that is known
/// by the room id, or else the first one among the auth events of the event
/// itself.
pub proof fn lemma_walk_finds_the_first<P>(
    create: Option<P>,
    auth_events: Seq<Seq<char>>,
    fetch: Fetch<P>,
    visits: nat,
)
    ensures
        ({
            let walk = begun(create, auth_events).walked(fetch, visits);
            &&& walk.power_levels == first_found(
                walk.order.take(walk.visited as int),
                fetch,
                "m.room.power_levels"@,
            )
            &&& !walk.goes_on() ==> walk.create == if create is Some {
                create
            } else {
                first_found(auth_events, fetch, "m.room.create"@)
            }
        }),
{
    let walk = begun(create, auth_events).walked(fetch, visits);
    let direct = extended(seq![], auth_events);
    lemma_walk(create, auth_events, fetch, visits);
    lemma_repeats_find_nothing_new(auth_events, fetch, "m.room.create"@);
    if !walk.goes_on() && create is None && walk.visited < walk.direct {
        let seen = walk.order.take(walk.visited as int);
        assert(seen =~= direct.take(walk.visited as int));
        lemma_found_stays_first(direct, fetch, "m.room.create"@, walk.visited as int);
    }
}

/// What is found first among some ids is found first among more of them.
proof fn lemma_found_stays_first<P>(ids: Seq<Seq<char>>, fetch: Fetch<P>, kind: Seq<char>, n: int)
    requires
        0 <= n <= ids.len(),
        first_found(ids.take(n), fetch, kind) is Some,
    ensures
        first_found(ids, fetch, kind) == first_found(ids.take(n), fetch, kind),
    decreases ids.len() - n,
{
    if n < ids.len() {
        lemma_first_found_of_more(ids, fetch, kind, n);
        lemma_found_stays_first(ids, fetch, kind, n + 1);
    } else {
        assert(ids.take(n) =~= ids);
    }
}

/// A walk never asks for an event twice.
pub proof fn lemma_no_event_is_wanted_twice<P>(
    create: Option<P>,
    auth_events: Seq<Seq<char>>,
    fetch: Fetch<P>,
    sooner: nat,
    later: nat,
)
    requires
        sooner < later,
        begun(create, auth_events).walked(fetch, sooner).goes_on(),
        begun(create, auth_events).walked(fetch, later).goes_on(),
    ensures
        begun(create, auth_events).walked(fetch, sooner).wanted() != begun(create, auth_events).walked(
            fetch,
            later,
        ).wanted(),
{
    let first = begun(create, auth_events).walked(fetch, sooner);
    let second = begun(create, auth_events).walked(fetch, later);
    lemma_walk(create, auth_events, fetch, sooner);
    lemma_walk(create, auth_events, fetch, later);
    lemma_walk_goes_by_the_chain(create, auth_events, fetch, sooner);
    lemma_walk_goes_by_the_chain(create, auth_events, fetch, later);
    lemma_chain_grows(auth_events, fetch, sooner, later);
    assert(first.wanted() == second.order.take(first.order.len() as int)[sooner as int]);
    assert(first.wanted() == second.order[sooner as int]);
}

/// How many steps behind the auth events of the event itself the ids of an
/// order stand: the order goes by that number, each id is reached within it, and
/// whatever a visited event names stands no more than one step behind it.
spec fn layered<P>(
    auth_events: Seq<Seq<char>>,
    fetch: Fetch<P>,
    order: Seq<Seq<char>>,
    visited: int,
    steps: Seq<nat>,
) -> bool {
    &&& steps.len() == order.len()
    &&& forall|i: int, j: int| 0 <= i <= j < order.len() ==> #[trigger] steps[i] <= #[trigger] steps[j]
    &&& forall|i: int| 0 <= i < order.len() ==> #[trigger] reaches(auth_events, fetch, order[i], steps[i])
    &&& forall|id: Seq<char>| #[trigger] auth_events.contains(id) ==> stands_within(order, steps, id, 0)
    &&& visited < order.len() ==> steps.last() <= steps[visited] + 1
    &&& forall|i: int, id: Seq<char>|
        0 <= i < visited && #[trigger] names(fetch, order[i], id) ==> stands_within(order, steps, id, steps[i] + 1)
}

/// Whether an order holds an id, no more than some steps behind.
spec fn stands_within(order: Seq<Seq<char>>, steps: Seq<nat>, id: Seq<char>, most: nat) -> bool {
    exists|i: int| 0 <= i < order.len() && #[trigger] order[i] == id && steps[i] <= most
}

/// The ids of the auth chain of an event with these auth events, in the order in
/// which they become known when so many of them have been visited: first the
/// auth events of the event itself, then those of each visited one in turn.
pub open spec fn chain_order<P>(auth_events: Seq<Seq<char>>, fetch: Fetch<P>, visits: nat) -> Seq<Seq<char>>
    decreases visits,
{
    if visits == 0 {
        extended(seq![], auth_events)
    } else {
        let known = chain_order(auth_events, fetch, (visits - 1) as nat);
        if visits - 1 < known.len() {
            match fetch(known[visits - 1]) {
                Some(chain) => extended(known, texts(chain.auth_events@)),
                None => known,
            }
        } else {
            known
        }
    }
}

/// A walk goes by the order of the chain.
proof fn lemma_walk_goes_by_the_chain<P>(
    create: Option<P>,
    auth_events: Seq<Seq<char>>,
    fetch: Fetch<P>,
    visits: nat,
)
    ensures
        ({
            let walk = begun(create, auth_events).walked(fetch, visits);
            walk.order == chain_order(auth_events, fetch, walk.visited)
        }),
    decreases visits,
{
    if visits > 0 {
        lemma_walk_goes_by_the_chain(create, auth_events, fetch, (visits - 1) as nat);
    }
}

/// The order of a chain only grows at its end, and not any more once all of it
/// has been visited.
proof fn lemma_chain_grows<P>(auth_events: Seq<Seq<char>>, fetch: Fetch<P>, fewer: nat, visits: nat)
    requires
        fewer <= visits,
    ensures
        ({
            let part = chain_order(auth_events, fetch, fewer);
            let whole = chain_order(auth_events, fetch, visits);
            &&& part.len() <= whole.len()
            &&& whole.take(part.len() as int) == part
            &&& part.len() <= fewer ==> whole == part
        }),
    decreases visits,
{
    let part = chain_order(auth_events, fetch, fewer);
    let whole = chain_order(auth_events, fetch, visits);
    if fewer == visits {
        assert(whole.take(part.len() as int) =~= part);
    } else {
        let prior = chain_order(auth_events, fetch, (visits - 1) as nat);
        lemma_chain_grows(auth_events, fetch, fewer, (visits - 1) as nat);
        if visits - 1 < prior.len() {
            match fetch(prior[visits - 1]) {
                Some(chain) => {
                    lemma_extended(prior, texts(chain.auth_events@));
                },
                None => {
                    assert(whole.take(prior.len() as int) =~= prior);
                },
            }
            assert(whole.take(part.len() as int) =~= whole.take(prior.len() as int).take(part.len() as int));
        }
    }
}

/// Once a walk is over, the power levels that it has found are the first ones in
/// the order of the chain, however much more of the chain is looked at.
pub proof fn lemma_walk_finds_the_first_in_the_chain<P>(
    create: Option<P>,
    auth_events: Seq<Seq<char>>,
    fetch: Fetch<P>,
    visits: nat,
    more: nat,
)
    requires
        !begun(create, auth_events).walked(fetch, visits).goes_on(),
        visits <= more,
    ensures
        begun(create, auth_events).walked(fetch, visits).power_levels == first_found(
            chain_order(auth_events, fetch, more),
            fetch,
            "m.room.power_levels"@,
        ),
{
    let walk = begun(create, auth_events).walked(fetch, visits);
    let whole = chain_order(auth_events, fetch, more);
    let n = walk.visited as int;
    lemma_walk(create, auth_events, fetch, visits);
    lemma_walk_goes_by_the_chain(create, auth_events, fetch, visits);
    lemma_chain_grows(auth_events, fetch, walk.visited, more);
    assert(whole.take(n) =~= whole.take(walk.order.len() as int).take(n));
    if walk.power_levels is Some {
        lemma_found_stays_first(whole, fetch, "m.room.power_levels"@, n);
    } else {
        assert(walk.order.take(n) =~= walk.order);
    }
}

/// What is in the chain within some steps is in it within more.
proof fn lemma_reaches_further<P>(
    auth_events: Seq<Seq<char>>,
    fetch: Fetch<P>,
    id: Seq<char>,
    fewer: nat,
    steps: nat,
)
    requires
        fewer <= steps,
        reaches(auth_events, fetch, id, fewer),
    ensures
        reaches(auth_events, fetch, id, steps),
    decreases steps,
{
    if !auth_events.contains(id) {
        let by = choose|by: Seq<char>| #[trigger]
            names(fetch, by, id) && reaches(auth_events, fetch, by, (fewer - 1) as nat);
        lemma_reaches_further(auth_events, fetch, by, (fewer - 1) as nat, (steps - 1) as nat);
    }
}

/// The order of a chain goes by the number of steps.
proof fn lemma_layers<P>(auth_events: Seq<Seq<char>>, fetch: Fetch<P>, visits: nat) -> (steps: Seq<nat>)
    requires
        visits <= chain_order(auth_events, fetch, visits).len(),
    ensures
        layered(auth_events, fetch, chain_order(auth_events, fetch, visits), visits as int, steps),
    decreases visits,
{
    let order = chain_order(auth_events, fetch, visits);
    if visits == 0 {
        let steps = Seq::new(order.len(), |i: int| 0nat);
        lemma_extended(seq![], auth_events);
        assert forall|i: int| 0 <= i < order.len() implies #[trigger] reaches(auth_events, fetch, order[i], steps[i]) by {
            assert(auth_events.contains(order[i]));
        }
        assert forall|id: Seq<char>| #[trigger] auth_events.contains(id) implies stands_within(order, steps, id, 0) by {
            assert(order.contains(id));
            let i = choose|i: int| 0 <= i < order.len() && order[i] == id;
            assert(order[i] == id && steps[i] <= 0);
        }
        steps
    } else {
        let n = visits - 1;
        let known = chain_order(auth_events, fetch, n as nat);
        let prior = lemma_layers(auth_events, fetch, n as nat);
        let more = match fetch(known[n]) {
            Some(chain) => texts(chain.auth_events@),
            None => seq![],
        };
        lemma_extended(known, more);
        assert(order == extended(known, more));
        let count = known.len() as int;
        let steps = Seq::new(
            order.len(),
            |i: int|
                if i < count {
                    prior[i]
                } else {
                    prior[n] + 1
                },
        );
        assert forall|i: int| 0 <= i < count implies #[trigger] order[i] == known[i] by {
            assert(order.take(count)[i] == order[i]);
        }
        assert forall|i: int, j: int| 0 <= i <= j < order.len() implies #[trigger] steps[i] <= #[trigger] steps[j] by {
            if i < count {
                assert(prior[i] <= prior[count - 1]);
                if j < count {
                    assert(prior[i] <= prior[j]);
                }
            }
        }
        assert forall|i: int| 0 <= i < order.len() implies #[trigger] reaches(auth_events, fetch, order[i], steps[i]) by {
            if i < count {
                assert(reaches(auth_events, fetch, known[i], prior[i]));
            } else {
                assert(more.contains(order[i]));
                assert(names(fetch, known[n], order[i]));
                assert(reaches(auth_events, fetch, known[n], prior[n]));
            }
        }
        assert forall|id: Seq<char>, most: nat| #[trigger] stands_within(known, prior, id, most) implies stands_within(
            order,
            steps,
            id,
            most,
        ) by {
            let i = choose|i: int| 0 <= i < known.len() && #[trigger] known[i] == id && prior[i] <= most;
            assert(order[i] == id && steps[i] <= most);
        }
        assert forall|id: Seq<char>| #[trigger] auth_events.contains(id) implies stands_within(order, steps, id, 0) by {
            assert(stands_within(known, prior, id, 0));
        }
        assert forall|i: int, id: Seq<char>|
            0 <= i < visits && #[trigger] names(fetch, order[i], id) implies stands_within(
            order,
            steps,
            id,
            steps[i] + 1,
        ) by {
            if i < n {
                assert(names(fetch, known[i], id));
                assert(stands_within(known, prior, id, prior[i] + 1));
            } else {
                assert(more.contains(id));
                assert(order.contains(id));
                let k = choose|k: int| 0 <= k < order.len() && order[k] == id;
                if k < count {
                    assert(prior[k] <= prior[count - 1]);
                }
                assert(order[k] == id && steps[k] <= steps[i] + 1);
            }
        }
        if visits < order.len() {
            assert(steps[n] <= steps[visits as int]);
            assert(prior[n] <= prior[count - 1]);
        }
        steps
    }
}

/// What is in the chain within some steps is in its order within as many, or
/// something that has not been visited is.
proof fn lemma_reached_or_ahead<P>(
    auth_events: Seq<Seq<char>>,
    fetch: Fetch<P>,
    order: Seq<Seq<char>>,
    visited: int,
    steps: Seq<nat>,
    id: Seq<char>,
    most: nat,
)
    requires
        0 <= visited <= order.len(),
        layered(auth_events, fetch, order, visited, steps),
        reaches(auth_events, fetch, id, most),
    ensures
        stands_within(order, steps, id, most) || (visited < order.len() && steps[visited] <= most),
    decreases most,
{
    if auth_events.contains(id) {
        assert(stands_within(order, steps, id, 0));
        let i = choose|i: int| 0 <= i < order.len() && #[trigger] order[i] == id && steps[i] <= 0;
        assert(order[i] == id && steps[i] <= most);
    } else {
        let by = choose|by: Seq<char>| #[trigger]
            names(fetch, by, id) && reaches(auth_events, fetch, by, (most - 1) as nat);
        lemma_reached_or_ahead(auth_events, fetch, order, visited, steps, by, (most - 1) as nat);
        if stands_within(order, steps, by, (most - 1) as nat) {
            let i = choose|i: int| 0 <= i < order.len() && #[trigger] order[i] == by && steps[i] <= (most - 1) as nat;
            if i < visited {
                assert(names(fetch, order[i], id));
                assert(stands_within(order, steps, id, steps[i] + 1));
                let k = choose|k: int| 0 <= k < order.len() && #[trigger] order[k] == id && steps[k] <= steps[i] + 1;
                assert(order[k] == id && steps[k] <= most);
            } else {
                assert(steps[visited] <= steps[i]);
            }
        }
    }
}

/// A walk that is over has found power levels wherever the auth chain holds any,
/// and the most recent ones: none in the chain are fewer steps behind the event.
pub proof fn lemma_walk_finds_the_most_recent<P>(
    create: Option<P>,
    auth_events: Seq<Seq<char>>,
    fetch: Fetch<P>,
    visits: nat,
    id: Seq<char>,
    steps: nat,
) -> (found: Seq<char>)
    requires
        !begun(create, auth_events).walked(fetch, visits).goes_on(),
        reaches(auth_events, fetch, id, steps),
        is_found(fetch, "m.room.power_levels"@, id),
    ensures
        begun(create, auth_events).walked(fetch, visits).power_levels == Some(fetch(found)->Some_0.event.pdu),
        is_found(fetch, "m.room.power_levels"@, found),
        reaches(auth_events, fetch, found, steps),
{
    let kind = "m.room.power_levels"@;
    let walk = begun(create, auth_events).walked(fetch, visits);
    let n = walk.visited as int;
    let seen = walk.order.take(n);
    lemma_walk(create, auth_events, fetch, visits);
    lemma_walk_goes_by_the_chain(create, auth_events, fetch, visits);
    let layers = lemma_layers(auth_events, fetch, walk.visited);
    lemma_reached_or_ahead(auth_events, fetch, walk.order, n, layers, id, steps);
    let place = lemma_place_of_first_found(seen, fetch, kind);
    if stands_within(walk.order, layers, id, steps) {
        let i = choose|i: int| 0 <= i < walk.order.len() && #[trigger] walk.order[i] == id && layers[i] <= steps;
        if i < n {
            assert(seen[i] == id);
        }
        assert(walk.power_levels is Some);
        assert(place <= i) by {
            if i < place {
                assert(!is_found(fetch, kind, seen[i]));
            }
        }
        assert(layers[place] <= layers[i]);
    } else {
        assert(layers[place] <= layers[n]);
    }
    let found = seen[place];
    assert(found == walk.order[place]);
    assert(reaches(auth_events, fetch, walk.order[place], layers[place]));
    lemma_reaches_further(auth_events, fetch, found, layers[place], steps);
    found
}

/// A walk visits nothing that is not in the auth chain.
pub proof fn lemma_walk_stays_in_the_chain<P>(
    create: Option<P>,
    auth_events: Seq<Seq<char>>,
    fetch: Fetch<P>,
    visits: nat,
    place: int,
)
    requires
        0 <= place < begun(create, auth_events).walked(fetch, visits).order.len(),
    ensures
        in_chain(auth_events, fetch, begun(create, auth_events).walked(fetch, visits).order[place]),
{
    let walk = begun(create, auth_events).walked(fetch, visits);
    lemma_walk(create, auth_events, fetch, visits);
    lemma_walk_goes_by_the_chain(create, auth_events, fetch, visits);
    let layers = lemma_layers(auth_events, fetch, walk.visited);
    assert(reaches(auth_events, fetch, walk.order[place], layers[place]));
}

/// A walk through a finite auth chain is over after as many visits as the chain
/// has events.
pub proof fn lemma_walk_ends<P>(
    create: Option<P>,
    auth_events: Seq<Seq<char>>,
    fetch: Fetch<P>,
    chain: Set<Seq<char>>,
)
    requires
        chain.finite(),
        forall|id: Seq<char>| in_chain(auth_events, fetch, id) ==> #[trigger] chain.contains(id),
    ensures
        !begun(create, auth_events).walked(fetch, chain.len()).goes_on(),
{
    let walk = begun(create, auth_events).walked(fetch, chain.len());
    lemma_walk(create, auth_events, fetch, chain.len());
    assert forall|id: Seq<char>| walk.order.to_set().contains(id) implies chain.contains(id) by {
        let place = choose|place: int| 0 <= place < walk.order.len() && walk.order[place] == id;
        lemma_walk_stays_in_the_chain(create, auth_events, fetch, chain.len(), place);
    }
    walk.order.unique_seq_to_set();
    vstd::set_lib::lemma_len_subset(walk.order.to_set(), chain);
}

/// The ids of a list on which fetching gives an event.
pub open spec fn fetchable<P>(ids: Seq<Seq<char>>, fetch: Fetch<P>) -> Seq<Seq<char>> {
    ids.filter(|id: Seq<char>| fetch(id) is Some)
}

proof fn lemma_fetchable_of_more<P>(ids: Seq<Seq<char>>, fetch: Fetch<P>, id: Seq<char>)
    ensures
        fetchable(ids.push(id), fetch) == if fetch(id) is Some {
            fetchable(ids, fetch).push(id)
        } else {
            fetchable(ids, fetch)
        },
{
    reveal(Seq::filter);
    assert(ids.push(id).drop_last() =~= ids);
}

proof fn lemma_fetchable_contains<P>(ids: Seq<Seq<char>>, fetch: Fetch<P>, id: Seq<char>)
    ensures
        fetchable(ids, fetch).contains(id) <==> ids.contains(id) && fetch(id) is Some,
{
    let pred = |id: Seq<char>| fetch(id) is Some;
    let kept = fetchable(ids, fetch);
    if kept.contains(id) {
        let i = choose|i: int| 0 <= i < kept.len() && kept[i] == id;
        ids.lemma_filter_pred(pred, i);
        ids.lemma_filter_contains_rev(pred, id);
    }
    if ids.contains(id) && fetch(id) is Some {
        let i = choose|i: int| 0 <= i < ids.len() && ids[i] == id;
        ids.lemma_filter_contains(pred, i);
    }
}

/// The fetchable ids of a list, and of the list up to a fetchable one.
proof fn lemma_fetchable_before<P>(ids: Seq<Seq<char>>, fetch: Fetch<P>, n: int)
    requires
        0 <= n <= ids.len(),
    ensures
        fetchable(ids.take(n), fetch).len() <= fetchable(ids, fetch).len(),
        fetchable(ids, fetch).take(fetchable(ids.take(n), fetch).len() as int) == fetchable(ids.take(n), fetch),
        n < ids.len() && fetch(ids[n]) is Some ==> fetchable(ids.take(n), fetch).len() < fetchable(ids, fetch).len()
            && fetchable(ids, fetch)[fetchable(ids.take(n), fetch).len() as int] == ids[n],
    decreases ids.len() - n,
{
    let part = fetchable(ids.take(n), fetch);
    let whole = fetchable(ids, fetch);
    let k = part.len() as int;
    if n == ids.len() {
        assert(ids.take(n) =~= ids);
        assert(whole.take(k) =~= part);
    } else {
        lemma_fetchable_before(ids, fetch, n + 1);
        assert(ids.take(n + 1) =~= ids.take(n).push(ids[n]));
        lemma_fetchable_of_more(ids.take(n), fetch, ids[n]);
        let next = fetchable(ids.take(n + 1), fetch);
        assert(whole.take(next.len() as int) == next);
        assert(whole.take(k) =~= next.take(k));
        assert(next.take(k) =~= part);
        if fetch(ids[n]) is Some {
            assert(whole.take(next.len() as int)[k] == whole[k]);
        }
    }
}

proof fn lemma_fetchable_twice<P>(ids: Seq<Seq<char>>, fetch: Fetch<P>)
    ensures
        fetchable(fetchable(ids, fetch), fetch) == fetchable(ids, fetch),
    decreases ids.len(),
{
    reveal(Seq::filter);
    if ids.len() > 0 {
        let front = ids.drop_last();
        lemma_fetchable_twice(front, fetch);
        assert(ids =~= front.push(ids.last()));
        lemma_fetchable_of_more(front, fetch, ids.last());
        lemma_fetchable_of_more(fetchable(front, fetch), fetch, ids.last());
    }
}

/// To leave out what cannot be fetched before a list is extended, or after, is
/// the same.
proof fn lemma_fetchable_extended<P>(list: Seq<Seq<char>>, more: Seq<Seq<char>>, fetch: Fetch<P>)
    ensures
        fetchable(extended(list, more), fetch) == extended(fetchable(list, fetch), fetchable(more, fetch)),
    decreases more.len(),
{
    if more.len() == 0 {
        reveal(Seq::filter);
        assert(fetchable(more, fetch) =~= more);
    } else {
        let rest = more.drop_last();
        let id = more.last();
        let front = extended(list, rest);
        lemma_fetchable_extended(list, rest, fetch);
        assert(more =~= rest.push(id));
        lemma_fetchable_of_more(rest, fetch, id);
        lemma_fetchable_of_more(front, fetch, id);
        lemma_fetchable_contains(front, fetch, id);
        if fetch(id) is Some {
            assert(fetchable(more, fetch).drop_last() =~= fetchable(rest, fetch));
        }
    }
}

/// What is found first does not depend on ids that cannot be fetched.
proof fn lemma_first_found_is_fetchable<P>(ids: Seq<Seq<char>>, fetch: Fetch<P>, kind: Seq<char>)
    ensures
        first_found(fetchable(ids, fetch), fetch, kind) == first_found(ids, fetch, kind),
    decreases ids.len(),
{
    if ids.len() == 0 {
        reveal(Seq::filter);
        assert(fetchable(ids, fetch) =~= ids);
    } else {
        let front = ids.drop_last();
        lemma_first_found_is_fetchable(front, fetch, kind);
        assert(ids =~= front.push(ids.last()));
        lemma_fetchable_of_more(front, fetch, ids.last());
        if fetch(ids.last()) is Some {
            assert(fetchable(ids, fetch).drop_last() =~= fetchable(front, fetch));
        }
    }
}

/// The order of a chain without the ids that cannot be fetched.
spec fn fetchable_order<P>(auth_events: Seq<Seq<char>>, fetch: Fetch<P>, visits: nat) -> Seq<Seq<char>>
    decreases visits,
{
    if visits == 0 {
        extended(seq![], fetchable(auth_events, fetch))
    } else {
        let known = fetchable_order(auth_events, fetch, (visits - 1) as nat);
        if visits - 1 < known.len() {
            match fetch(known[visits - 1]) {
                Some(chain) => extended(known, fetchable(texts(chain.auth_events@), fetch)),
                None => known,
            }
        } else {
            known
        }
    }
}

proof fn lemma_fetchable_order_grows<P>(auth_events: Seq<Seq<char>>, fetch: Fetch<P>, fewer: nat, visits: nat)
    requires
        fewer <= visits,
    ensures
        ({
            let part = fetchable_order(auth_events, fetch, fewer);
            let whole = fetchable_order(auth_events, fetch, visits);
            &&& part.len() <= whole.len()
            &&& whole.take(part.len() as int) == part
            &&& part.len() <= fewer ==> whole == part
        }),
    decreases visits,
{
    let part = fetchable_order(auth_events, fetch, fewer);
    let whole = fetchable_order(auth_events, fetch, visits);
    if fewer == visits {
        assert(whole.take(part.len() as int) =~= part);
    } else {
        let prior = fetchable_order(auth_events, fetch, (visits - 1) as nat);
        lemma_fetchable_order_grows(auth_events, fetch, fewer, (visits - 1) as nat);
        if visits - 1 < prior.len() {
            match fetch(prior[visits - 1]) {
                Some(chain) => {
                    lemma_extended(prior, fetchable(texts(chain.auth_events@), fetch));
                },
                None => {
                    assert(whole.take(prior.len() as int) =~= prior);
                },
            }
            assert(whole.take(part.len() as int) =~= whole.take(prior.len() as int).take(part.len() as int));
        }
    }
}

/// What can be fetched of the order of a chain, once some of it has been visited.
proof fn lemma_fetchable_part_of_chain<P>(auth_events: Seq<Seq<char>>, fetch: Fetch<P>, visits: nat)
    requires
        visits <= chain_order(auth_events, fetch, visits).len(),
    ensures
        ({
            let order = chain_order(auth_events, fetch, visits);
            fetchable(order, fetch) == fetchable_order(
                auth_events,
                fetch,
                fetchable(order.take(visits as int), fetch).len(),
            )
        }),
    decreases visits,
{
    let order = chain_order(auth_events, fetch, visits);
    if visits == 0 {
        reveal(Seq::filter);
        lemma_fetchable_extended(seq![], auth_events, fetch);
        assert(fetchable(Seq::<Seq<char>>::empty(), fetch) =~= seq![]);
        assert(order.take(0) =~= seq![]);
    } else {
        let n = visits - 1;
        let known = chain_order(auth_events, fetch, n as nat);
        lemma_fetchable_part_of_chain(auth_events, fetch, n as nat);
        lemma_chain_grows(auth_events, fetch, n as nat, visits);
        assert(order[n] == order.take(known.len() as int)[n]);
        assert(order.take(n) =~= order.take(known.len() as int).take(n));
        assert(order.take(visits as int) =~= known.take(n).push(known[n]));
        lemma_fetchable_of_more(known.take(n), fetch, known[n]);
        match fetch(known[n]) {
            Some(chain) => {
                lemma_fetchable_before(known, fetch, n);
                lemma_fetchable_extended(known, texts(chain.auth_events@), fetch);
            },
            None => {},
        }
    }
}

/// A walk that is over has found what is first among the part of the chain that
/// can be fetched, as far as it has come; where it has found nothing, it has
/// come to the end of that part.
proof fn lemma_walk_over_fetchable<P>(
    create: Option<P>,
    auth_events: Seq<Seq<char>>,
    fetch: Fetch<P>,
    visits: nat,
) -> (k: nat)
    requires
        !begun(create, auth_events).walked(fetch, visits).goes_on(),
    ensures
        ({
            let walk = begun(create, auth_events).walked(fetch, visits);
            let order = fetchable_order(auth_events, fetch, k);
            &&& walk.power_levels == first_found(order, fetch, "m.room.power_levels"@)
            &&& walk.power_levels is None ==> order.len() <= k
        }),
{
    let kind = "m.room.power_levels"@;
    let walk = begun(create, auth_events).walked(fetch, visits);
    let n = walk.visited as int;
    lemma_walk(create, auth_events, fetch, visits);
    lemma_walk_goes_by_the_chain(create, auth_events, fetch, visits);
    lemma_fetchable_part_of_chain(auth_events, fetch, walk.visited);
    lemma_first_found_is_fetchable(walk.order, fetch, kind);
    if walk.power_levels is Some {
        lemma_found_stays_first(walk.order, fetch, kind, n);
    } else {
        assert(walk.order.take(n) =~= walk.order);
    }
    fetchable(walk.order.take(n), fetch).len()
}

proof fn lemma_same_finds<P>(auth_events: Seq<Seq<char>>, fetch: Fetch<P>, kind: Seq<char>, fewer: nat, more: nat)
    requires
        fewer <= more,
        first_found(fetchable_order(auth_events, fetch, fewer), fetch, kind) is None ==> fetchable_order(
            auth_events,
            fetch,
            fewer,
        ).len() <= fewer,
    ensures
        first_found(fetchable_order(auth_events, fetch, fewer), fetch, kind) == first_found(
            fetchable_order(auth_events, fetch, more),
            fetch,
            kind,
        ),
{
    let part = fetchable_order(auth_events, fetch, fewer);
    let whole = fetchable_order(auth_events, fetch, more);
    lemma_fetchable_order_grows(auth_events, fetch, fewer, more);
    if first_found(part, fetch, kind) is Some {
        lemma_found_stays_first(whole, fetch, kind, part.len() as int);
    }
}

proof fn lemma_fetchable_order_of_fetchable<P>(auth_events: Seq<Seq<char>>, fetch: Fetch<P>, visits: nat)
    ensures
        fetchable_order(fetchable(auth_events, fetch), fetch, visits) == fetchable_order(auth_events, fetch, visits),
    decreases visits,
{
    lemma_fetchable_twice(auth_events, fetch);
    if visits > 0 {
        lemma_fetchable_order_of_fetchable(auth_events, fetch, (visits - 1) as nat);
    }
}

/// An auth event that cannot be fetched plays no part: without it, a walk finds
/// the same creation of the room and the same power levels.
pub proof fn lemma_unfetchable_auth_events_play_no_part<P>(
    create: Option<P>,
    auth_events: Seq<Seq<char>>,
    fetch: Fetch<P>,
    visits: nat,
    other_visits: nat,
)
    requires
        !begun(create, auth_events).walked(fetch, visits).goes_on(),
        !begun(create, fetchable(auth_events, fetch)).walked(fetch, other_visits).goes_on(),
    ensures
        begun(create, auth_events).walked(fetch, visits).create == begun(create, fetchable(auth_events, fetch)).walked(
            fetch,
            other_visits,
        ).create,
        begun(create, auth_events).walked(fetch, visits).power_levels == begun(
            create,
            fetchable(auth_events, fetch),
        ).walked(fetch, other_visits).power_levels,
{
    let kind = "m.room.power_levels"@;
    let others = fetchable(auth_events, fetch);
    lemma_walk_finds_the_first(create, auth_events, fetch, visits);
    lemma_walk_finds_the_first(create, others, fetch, other_visits);
    lemma_first_found_is_fetchable(auth_events, fetch, "m.room.create"@);
    let one = lemma_walk_over_fetchable(create, auth_events, fetch, visits);
    let other = lemma_walk_over_fetchable(create, others, fetch, other_visits);
    lemma_fetchable_order_of_fetchable(auth_events, fetch, one);
    lemma_fetchable_order_of_fetchable(auth_events, fetch, other);
    if one <= other {
        lemma_same_finds(auth_events, fetch, kind, one, other);
    } else {
        lemma_same_finds(auth_events, fetch, kind, other, one);
    }
}

/// How an id list is extended: it keeps what it holds, in its places; it comes to
/// hold all that is added and nothing else; ids that it lacks are put at its end
/// as they come, and ids that it has change nothing.
pub proof fn lemma_what_extending_does(list: Seq<Seq<char>>, more: Seq<Seq<char>>)
    ensures
        extended(list, more).take(list.len() as int) == list,
        forall|id: Seq<char>| #[trigger]
            extended(list, more).contains(id) <==> list.contains(id) || more.contains(id),
        list.no_duplicates() ==> extended(list, more).no_duplicates(),
        (list + more).no_duplicates() ==> extended(list, more) == list + more,
        (forall|i: int| 0 <= i < more.len() ==> list.contains(#[trigger] more[i])) ==> extended(list, more) == list,
    decreases more.len(),
{
    lemma_extended(list, more);
    if more.len() == 0 {
        assert(list + more =~= list);
    } else {
        let rest = more.drop_last();
        let front = extended(list, rest);
        lemma_what_extending_does(list, rest);
        lemma_extended(list, rest);
        if (list + more).no_duplicates() {
            assert forall|i: int, j: int| 0 <= i < (list + rest).len() && 0 <= j < (list + rest).len() && i != j implies (
            list + rest)[i] != (list + rest)[j] by {
                assert((list + rest)[i] == (list + more)[i]);
                assert((list + rest)[j] == (list + more)[j]);
            }
            assert(front == list + rest);
            if front.contains(more.last()) {
                let i = choose|i: int| 0 <= i < front.len() && front[i] == more.last();
                assert((list + more)[i] == front[i]);
                assert((list + more)[(list + more).len() - 1] == more.last());
            }
            assert(front.push(more.last()) =~= list + more);
        }
        if forall|i: int| 0 <= i < more.len() ==> list.contains(#[trigger] more[i]) {
            assert forall|i: int| 0 <= i < rest.len() implies list.contains(#[trigger] rest[i]) by {
                assert(rest[i] == more[i]);
            }
            assert(list.contains(more[more.len() - 1]));
        }
    }
}

/// What one visit does. What was found stays, and nothing but the number of
/// visits changes where the event could not be fetched. Power levels are found in
/// an event of that type with an empty state key, the creation of the room in one
/// of its type with an empty state key, the latter only while the auth events of
/// the event itself are visited and the room id does not tell it.
pub proof fn lemma_what_a_visit_does<P>(walk: WalkView<P>, fetched: Option<ChainEvent<P>>)
    ensures
        ({
            let next = walk.stepped(fetched);
            &&& next.visited == walk.visited + 1
            &&& next.direct == walk.direct
            &&& next.hydra_room_id == walk.hydra_room_id
            &&& walk.power_levels is Some ==> next.power_levels == walk.power_levels
            &&& walk.create is Some ==> next.create == walk.create
            &&& fetched is None ==> next.power_levels == walk.power_levels && next.create == walk.create && next.order
                == walk.order
            &&& fetched matches Some(chain) ==> {
                let room_wide = chain.event.state_key is Some && chain.event.state_key->Some_0@.len() == 0;
                &&& walk.power_levels is None && room_wide && chain.event.kind@ == "m.room.power_levels"@
                    ==> next.power_levels == Some(chain.event.pdu)
                &&& walk.power_levels is None && !(room_wide && chain.event.kind@ == "m.room.power_levels"@)
                    ==> next.power_levels is None
                &&& walk.create is None && !walk.hydra_room_id && walk.visited < walk.direct && room_wide
                    && chain.event.kind@ == "m.room.create"@ ==> next.create == Some(chain.event.pdu)
                &&& walk.create is None && (walk.hydra_room_id || walk.visited >= walk.direct || !room_wide
                    || chain.event.kind@ != "m.room.create"@) ==> next.create is None
                &&& next.order.take(walk.order.len() as int) == walk.order
                &&& (walk.order + texts(chain.auth_events@)).no_duplicates() ==> next.order == walk.order + texts(
                    chain.auth_events@,
                )
                &&& forall|i: int|
                    0 <= i < chain.auth_events@.len() ==> next.order.contains(#[trigger] chain.auth_events@[i]@)
            }
        }),
{
    reveal_strlit("");
    match fetched {
        Some(chain) => {
            lemma_what_extending_does(walk.order, texts(chain.auth_events@));
            if chain.event.state_key is Some {
                let key = chain.event.state_key->Some_0@;
                assert(key.len() == 0 ==> key =~= ""@);
            }
            assert forall|i: int| 0 <= i < chain.auth_events@.len() implies walk.stepped(fetched).order.contains(
                #[trigger] chain.auth_events@[i]@,
            ) by {
                assert(texts(chain.auth_events@)[i] == chain.auth_events@[i]@);
            }
        },
        None => {},
    }
}

/// When a walk is over: where nothing is left to visit, where both the power
/// levels and the creation of the room are found, and where the power levels are
/// found and all the auth events of the event itself are visited. It goes on
/// where something is left and no power levels are found, and where something is
/// left, the creation of the room is not found and not all the auth events of the
/// event itself are visited.
pub proof fn lemma_when_a_walk_is_over<P>(walk: WalkView<P>)
    ensures
        walk.visited >= walk.order.len() ==> !walk.goes_on(),
        walk.power_levels is Some && walk.create is Some ==> !walk.goes_on(),
        walk.power_levels is Some && walk.visited >= walk.direct ==> !walk.goes_on(),
        walk.visited < walk.order.len() && walk.power_levels is None ==> walk.goes_on(),
        walk.visited < walk.order.len() && walk.create is None && walk.visited < walk.direct ==> walk.goes_on(),
{
}

/// What a walk asks for: the first id in its order that it has not visited.
pub proof fn lemma_what_is_asked_for<P>(walk: SenderWalk<P>, id: Option<&String>)
    requires
        call_ensures(SenderWalk::<P>::next_id, (&walk,), id),
    ensures
        id matches Some(id) ==> walk@.visited < walk@.order.len() && id@ == walk@.order[walk@.visited as int] && !(
        walk@.power_levels is Some && walk@.create is Some),
        id is None ==> walk@.visited >= walk@.order.len() || (walk@.power_levels is Some && (walk@.create is Some
            || walk@.visited >= walk@.direct)),
{
}

/// How a walk begins: nothing is visited and no power levels are found, the
/// creation of the room is found exactly where it is known by the room id, and the
/// order holds the auth events, each once.
pub proof fn lemma_how_a_walk_begins<P>(
    create: P,
    auth_events: Vec<String>,
    unknown: SenderWalk<P>,
    known: SenderWalk<P>,
)
    requires
        call_ensures(SenderWalk::<P>::new, (&auth_events,), unknown),
        call_ensures(SenderWalk::<P>::with_create, (create, &auth_events), known),
    ensures
        unknown@.create is None && !unknown@.hydra_room_id,
        known@.create == Some(create) && known@.hydra_room_id,
        unknown@.power_levels is None && known@.power_levels is None,
        unknown@.visited == 0 && known@.visited == 0,
        unknown@.order == known@.order,
        unknown@.order.no_duplicates(),
        unknown@.direct == unknown@.order.len() && known@.direct == known@.order.len(),
        forall|i: int| 0 <= i < auth_events@.len() ==> unknown@.order.contains(#[trigger] auth_events@[i]@),
        forall|i: int| 0 <= i < unknown@.order.len() ==> texts(auth_events@).contains(#[trigger] unknown@.order[i]),
{
    lemma_extended(seq![], texts(auth_events@));
    assert forall|i: int| 0 <= i < auth_events@.len() implies unknown@.order.contains(#[trigger] auth_events@[i]@) by {
        assert(texts(auth_events@)[i] == auth_events@[i]@);
    }
    assert forall|i: int| 0 <= i < unknown@.order.len() implies texts(auth_events@).contains(
        #[trigger] unknown@.order[i],
    ) by {
        assert(extended(seq![], texts(auth_events@)).contains(unknown@.order[i]));
    }
}

/// Whatever power levels a walk has found come from an event that was fetched, of
/// their type and with an empty state key; and so does the creation of the room
/// where the room id does not tell it, from one of the auth events of the event
/// itself.
pub proof fn lemma_what_is_found_is_of_its_type<P>(
    create: Option<P>,
    auth_events: Seq<Seq<char>>,
    fetch: Fetch<P>,
    visits: nat,
) -> (found: (Seq<char>, Seq<char>))
    ensures
        ({
            let walk = begun(create, auth_events).walked(fetch, visits);
            &&& walk.power_levels matches Some(pdu) ==> {
                &&& fetch(found.0) is Some
                &&& fetch(found.0)->Some_0.event.pdu == pdu
                &&& fetch(found.0)->Some_0.event.kind@ == "m.room.power_levels"@
                &&& fetch(found.0)->Some_0.event.state_key is Some
                &&& fetch(found.0)->Some_0.event.state_key->Some_0@.len() == 0
                &&& in_chain(auth_events, fetch, found.0)
            }
            &&& create is Some ==> walk.create == create
            &&& create is None && walk.create is Some ==> {
                &&& fetch(found.1) is Some
                &&& fetch(found.1)->Some_0.event.pdu == walk.create->Some_0
                &&& fetch(found.1)->Some_0.event.kind@ == "m.room.create"@
                &&& fetch(found.1)->Some_0.event.state_key is Some
                &&& fetch(found.1)->Some_0.event.state_key->Some_0@.len() == 0
                &&& auth_events.contains(found.1)
            }
        }),
{
    reveal_strlit("");
    let walk = begun(create, auth_events).walked(fetch, visits);
    let direct = extended(seq![], auth_events);
    lemma_walk(create, auth_events, fetch, visits);
    lemma_extended(seq![], auth_events);
    let seen = walk.order.take(walk.visited as int);
    let place = lemma_place_of_first_found(seen, fetch, "m.room.power_levels"@);
    let looked = if walk.visited < walk.direct {
        seen
    } else {
        direct
    };
    let other = lemma_place_of_first_found(looked, fetch, "m.room.create"@);
    if walk.power_levels is Some {
        assert(seen[place] == walk.order[place]);
        lemma_walk_stays_in_the_chain(create, auth_events, fetch, visits, place);
    }
    if create is None && walk.create is Some {
        assert(walk.order.take(direct.len() as int)[other] == walk.order[other]);
        assert(looked[other] == direct[other]);
        assert(direct.contains(direct[other]));
    }
    (seen[place], looked[other])
}

/// A walk that is over has missed nothing: an event of the auth chain that is
/// fetched, of the type of the power levels and with an empty state key, means
/// that power levels are found; an auth event of the event itself of the type of
/// the creation of the room and with an empty state key, that a creation is.
pub proof fn lemma_nothing_is_missed<P>(
    create: Option<P>,
    auth_events: Seq<Seq<char>>,
    fetch: Fetch<P>,
    visits: nat,
    id: Seq<char>,
    chain: ChainEvent<P>,
)
    requires
        !begun(create, auth_events).walked(fetch, visits).goes_on(),
        fetch(id) == Some(chain),
        chain.event.state_key is Some,
        chain.event.state_key->Some_0@.len() == 0,
    ensures
        chain.event.kind@ == "m.room.power_levels"@ && in_chain(auth_events, fetch, id) ==> begun(
            create,
            auth_events,
        ).walked(fetch, visits).power_levels is Some,
        chain.event.kind@ == "m.room.create"@ && auth_events.contains(id) ==> begun(create, auth_events).walked(
            fetch,
            visits,
        ).create is Some,
{
    reveal_strlit("");
    assert(chain.event.state_key->Some_0@ =~= ""@);
    if chain.event.kind@ == "m.room.power_levels"@ && in_chain(auth_events, fetch, id) {
        let steps = choose|steps: nat| reaches(auth_events, fetch, id, steps);
        lemma_walk_finds_the_most_recent(create, auth_events, fetch, visits, id, steps);
    }
    if chain.event.kind@ == "m.room.create"@ && auth_events.contains(id) {
        lemma_walk_finds_the_first(create, auth_events, fetch, visits);
        let place = lemma_place_of_first_found(auth_events, fetch, "m.room.create"@);
        let i = choose|i: int| 0 <= i < auth_events.len() && auth_events[i] == id;
        assert(is_found(fetch, "m.room.create"@, auth_events[i]));
    }
}

/// The creation of the room that a walk has found, once it is over, is that of the
/// first auth event of the type of a creation with an empty state key.
pub proof fn lemma_the_first_creation_is_found<P>(
    auth_events: Seq<Seq<char>>,
    fetch: Fetch<P>,
    visits: nat,
    place: int,
    chain: ChainEvent<P>,
)
    requires
        !begun::<P>(None, auth_events).walked(fetch, visits).goes_on(),
        0 <= place < auth_events.len(),
        fetch(auth_events[place]) == Some(chain),
        chain.event.kind@ == "m.room.create"@,
        chain.event.state_key is Some,
        chain.event.state_key->Some_0@.len() == 0,
        forall|i: int|
            0 <= i < place && fetch(#[trigger] auth_events[i]) is Some && fetch(
                auth_events[i],
            )->Some_0.event.kind@ == "m.room.create"@ ==> fetch(auth_events[i])->Some_0.event.state_key is None
                || fetch(auth_events[i])->Some_0.event.state_key->Some_0@.len() > 0,
    ensures
        begun::<P>(None, auth_events).walked(fetch, visits).create == Some(chain.event.pdu),
{
    reveal_strlit("");
    assert(chain.event.state_key->Some_0@ =~= ""@);
    lemma_walk_finds_the_first(None, auth_events, fetch, visits);
    let first = lemma_place_of_first_found(auth_events, fetch, "m.room.create"@);
    assert(is_found(fetch, "m.room.create"@, auth_events[place]));
    if first < place {
        assert(fetch(auth_events[first]) is Some);
    }
    if place < first {
        assert(!is_found(fetch, "m.room.create"@, auth_events[place]));
    }
}

/// What the id of the event that created a room is: the room id with another
/// sigil. There is one exactly where the room id has the sigil of a room id and
/// what comes of it is a valid event id.
pub proof fn lemma_create_id_is_the_room_id<'a>(room_id: &'a str, r: Result<String, NotAnEventId>)
    requires
        call_ensures(create_event_id, (room_id,), r),
    ensures
        r matches Ok(id) ==> {
            &&& id@.len() == room_id@.len() > 0
            &&& id@[0] == '$'
            &&& room_id@[0] == '!'
            &&& forall|i: int| 0 < i < id@.len() ==> #[trigger] id@[i] == room_id@[i]
            &&& is_event_id(id@)
        },
        r is Err ==> forall|id: Seq<char>|
            #![trigger is_event_id(id)]
            id.len() == room_id@.len() > 0 && id[0] == '$' && room_id@[0] == '!' && (forall|i: int|
                0 < i < id.len() ==> #[trigger] id[i] == room_id@[i]) ==> !is_event_id(id),
{
    reveal_strlit("$");
    if r is Err {
        assert forall|id: Seq<char>|
            #![trigger is_event_id(id)]
            id.len() == room_id@.len() > 0 && id[0] == '$' && room_id@[0] == '!' && (forall|i: int|
                0 < i < id.len() ==> #[trigger] id[i] == room_id@[i]) implies !is_event_id(id) by {
            assert(id =~= "$"@ + room_id@.skip(1));
        }
    }
}

/// What is asked for once the walk is over: the level of the sender exactly where
/// there are creators, and the default level of users exactly where there is no
/// creation of the room; by the power levels that were found either way.
pub proof fn lemma_what_the_query_is<'a, P, C, E>(
    power_levels: Option<&'a P>,
    creators: Option<Result<C, E>>,
    r: Result<PowerQuery<'a, P, C>, E>,
)
    requires
        call_ensures(power_query::<P, C, E>, (power_levels, creators), r),
    ensures
        r is Err <==> creators is Some && creators->Some_0 is Err,
        r is Err ==> creators->Some_0->Err_0 == r->Err_0,
        r is Ok && r->Ok_0 is UsersDefault <==> creators is None,
        r is Ok && r->Ok_0 is OfSender ==> creators is Some && creators->Some_0 is Ok && r->Ok_0->creators
            == creators->Some_0->Ok_0 && r->Ok_0->OfSender_power_levels == power_levels,
        r is Ok && r->Ok_0 is UsersDefault ==> r->Ok_0->UsersDefault_power_levels == power_levels,
{
}

/// What a walk shows is what it has found, and a step does to it what a visit does.
pub proof fn lemma_a_step_is_a_visit<P>(
    walk: &mut SenderWalk<P>,
    fetched: Option<ChainEvent<P>>,
    create: Option<&P>,
    power_levels: Option<&P>,
)
    requires
        call_ensures(SenderWalk::<P>::step, (walk, fetched), ()),
        call_ensures(SenderWalk::<P>::create, (&*final(walk),), create),
        call_ensures(SenderWalk::<P>::power_levels, (&*final(walk),), power_levels),
    ensures
        old(walk)@.create matches Some(pdu) ==> create == Some(&pdu),
        old(walk)@.power_levels matches Some(pdu) ==> power_levels == Some(&pdu),
        fetched is None ==> (create is Some <==> old(walk)@.create is Some) && (power_levels is Some
            <==> old(walk)@.power_levels is Some),
        final(walk)@.visited == old(walk)@.visited + 1,
        fetched matches Some(chain) ==> {
            let room_wide = chain.event.state_key is Some && chain.event.state_key->Some_0@.len() == 0;
            &&& old(walk)@.power_levels is None ==> (power_levels is Some <==> room_wide && chain.event.kind@
                == "m.room.power_levels"@)
            &&& old(walk)@.power_levels is None && power_levels is Some ==> *power_levels->Some_0 == chain.event.pdu
            &&& old(walk)@.create is None ==> (create is Some <==> room_wide && chain.event.kind@ == "m.room.create"@
                && !old(walk)@.hydra_room_id && old(walk)@.visited < old(walk)@.direct)
            &&& old(walk)@.create is None && create is Some ==> *create->Some_0 == chain.event.pdu
        },
{
    lemma_what_a_visit_does(old(walk)@, fetched);
}

/// An id list is extended id by id: to extend it by two lists is to extend it by the
/// one and then by the other, and one id is put at the end exactly where the list
/// lacks it.
pub proof fn lemma_extending_goes_id_by_id(
    list: Seq<Seq<char>>,
    first: Seq<Seq<char>>,
    second: Seq<Seq<char>>,
    id: Seq<char>,
)
    ensures
        extended(list, first + second) == extended(extended(list, first), second),
        list.contains(id) ==> extended(list, seq![id]) == list,
        !list.contains(id) ==> extended(list, seq![id]) == list.push(id),
    decreases second.len(),
{
    let one = seq![id];
    assert(one.drop_last() =~= seq![]);
    assert(one.last() == id);
    assert(extended(list, seq![]) == list);
    if second.len() == 0 {
        assert(first + second =~= first);
    } else {
        lemma_extending_goes_id_by_id(list, first, second.drop_last(), id);
        assert((first + second).drop_last() =~= first + second.drop_last());
    }
}

} // verus!
