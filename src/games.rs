//! A registry of unique games, each with an owner and an optional asking
//! price, a bounded per-account index of owned games, and the marketplace
//! operations that move games between accounts.

use vstd::prelude::*;
use crate::hashing::{blake2_256_of, gen_key, key_payload, ExecutionContext};

verus! {

/// How many games one account may own at a time.
pub const MAX_GAMES_OWNED: usize = 100;

/// A unique, non-fungible game record.
#[derive(Clone, Copy, Debug, PartialEq, Eq)]
pub struct Game {
    pub key_data: [u8; 32],
    pub owner: u64,
    /// The asking price; `None` means the game is not for sale.
    pub value: Option<u64>,
}

/// Who makes a call: a signing account, or nobody.
#[derive(Clone, Copy, Debug, PartialEq, Eq)]
pub enum Origin {
    Signed(u64),
    Unsigned,
}

#[derive(Clone, Copy, Debug, PartialEq, Eq, Structural)]
pub enum Error {
    /// The call was not signed by an account.
    BadOrigin,
    /// The issuance counter is at its maximum.
    TooManyGames,
    /// A game with this key already exists.
    DuplicatedGame,
    /// No game has this key.
    GameNotFound,
    /// The receiving account's index is full.
    TooManyGamesOwned,
    /// The caller does not own the game.
    NotAuthorized,
    /// Source and destination account are the same.
    TransferToSelf,
    /// The game has no asking price.
    NotForSale,
    /// The asking price is above what the buyer offers.
    PriceTooLow,
    /// The buyer could not pay the asking price.
    InsufficientFunds,
}

/// What a successful call records for outside observers.
#[derive(Clone, Copy, Debug, PartialEq, Eq)]
pub enum Event {
    GameCreated { owner: u64, id: [u8; 32] },
    GameTransferred { from: u64, to: u64, id: [u8; 32] },
    PriceUpdated { owner: u64, id: [u8; 32], price: Option<u64> },
    GameSold { buyer: u64, id: [u8; 32], price: u64 },
}

/// A currency movement that a purchase needs before it can complete.
#[derive(Clone, Copy, Debug, PartialEq, Eq)]
pub struct Payment {
    pub from: u64,
    pub to: u64,
    pub amount: u64,
}

/// The games that one account owns, in the order they came to it.
struct Holding {
    account: u64,
    ids: Vec<[u8; 32]>,
}

/// The registry state: games by key, owned-game indices by account, the
/// issuance counter, the current execution context and the event log.
pub struct Pallet {
    games: Vec<Game>,
    holdings: Vec<Holding>,
    game_count: u32,
    context: ExecutionContext,
    events: Vec<Event>,
    game_map: Ghost<Map<[u8; 32], Game>>,
    owned_map: Ghost<Map<u64, Seq<[u8; 32]>>>,
}

/// `s` with `v` appended holds exactly what `s` holds and `v`.
proof fn lemma_push_contains<A>(s: Seq<A>, v: A)
    ensures
        forall|x: A| s.push(v).contains(x) <==> (s.contains(x) || x == v),
        !s.contains(v) && s.no_duplicates() ==> s.push(v).no_duplicates(),
{
    assert forall|x: A| s.push(v).contains(x) <==> (s.contains(x) || x == v) by {
        if s.contains(x) {
            let i = choose|i: int| 0 <= i < s.len() && s[i] == x;
            assert(s.push(v)[i] == x);
        }
        if x == v {
            assert(s.push(v)[s.len() as int] == x);
        }
        if s.push(v).contains(x) {
            let i = choose|i: int| 0 <= i < s.push(v).len() && s.push(v)[i] == x;
            if i < s.len() {
                assert(s[i] == x);
            }
        }
    }
}

/// Removing the entry at `p` from a sequence without repeats drops exactly
/// that value.
proof fn lemma_remove_contains<A>(s: Seq<A>, p: int)
    requires
        s.no_duplicates(),
        0 <= p < s.len(),
    ensures
        forall|x: A| s.remove(p).contains(x) <==> (s.contains(x) && x != s[p]),
        s.remove(p).no_duplicates(),
        s.remove(p).len() == s.len() - 1,
{
    let r = s.remove(p);
    assert forall|x: A| r.contains(x) <==> (s.contains(x) && x != s[p]) by {
        if r.contains(x) {
            let i = choose|i: int| 0 <= i < r.len() && r[i] == x;
            if i < p {
                assert(s[i] == x);
            } else {
                assert(s[i + 1] == x);
            }
        }
        if s.contains(x) && x != s[p] {
            let i = choose|i: int| 0 <= i < s.len() && s[i] == x;
            if i < p {
                assert(r[i] == x);
            } else {
                assert(r[i - 1] == x);
            }
        }
    }
    assert forall|i: int, j: int| 0 <= i < r.len() && 0 <= j < r.len() && i != j implies r[i]
        != r[j] by {
        let si = if i < p { i } else { i + 1 };
        let sj = if j < p { j } else { j + 1 };
        assert(r[i] == s[si] && r[j] == s[sj]);
    }
}

/// Whether two keys are equal, byte by byte.
fn same_key(a: &[u8; 32], b: &[u8; 32]) -> (r: bool)
    ensures
        r == (*a == *b),
{
    let mut i: usize = 0;
    while i < 32
        invariant
            i <= 32,
            forall|j: int| 0 <= j < i ==> a@[j] == b@[j],
        decreases 32 - i,
    {
        if a[i] != b[i] {
            return false;
        }
        i = i + 1;
    }
    assert(a@ =~= b@);
    assert(*a =~= *b);
    true
}

/// The place of `id` in `ids`, if it occurs there.
fn position_of(ids: &Vec<[u8; 32]>, id: &[u8; 32]) -> (r: Option<usize>)
    ensures
        match r {
            Some(i) => i < ids@.len() && ids@[i as int] == *id,
            None => !ids@.contains(*id),
        },
{
    let mut i: usize = 0;
    while i < ids.len()
        invariant
            i <= ids@.len(),
            forall|j: int| 0 <= j < i ==> ids@[j] != *id,
        decreases ids@.len() - i,
    {
        if same_key(&ids[i], id) {
            return Some(i);
        }
        i = i + 1;
    }
    None
}

/// A fresh vector with the same keys.
fn copy_keys(ids: &Vec<[u8; 32]>) -> (r: Vec<[u8; 32]>)
    ensures
        r@ == ids@,
{
    let mut out: Vec<[u8; 32]> = Vec::new();
    let mut i: usize = 0;
    while i < ids.len()
        invariant
            i <= ids@.len(),
            out@ =~= ids@.subrange(0, i as int),
        decreases ids@.len() - i,
    {
        out.push(ids[i]);
        i = i + 1;
    }
    assert(out@ =~= ids@);
    out
}

impl Pallet {
    /// All games, by key.
    pub closed spec fn games_view(&self) -> Map<[u8; 32], Game> {
        self.game_map@
    }

    /// The keys that `account` owns, in the order they came to it.
    pub closed spec fn owned_view(&self, account: u64) -> Seq<[u8; 32]> {
        if self.owned_map@.contains_key(account) {
            self.owned_map@[account]
        } else {
            Seq::empty()
        }
    }

    /// The issuance counter.
    pub closed spec fn count_view(&self) -> u32 {
        self.game_count
    }

    /// The execution context that key derivation reads.
    pub closed spec fn context_view(&self) -> ExecutionContext {
        self.context
    }

    /// The events recorded so far, oldest first.
    pub closed spec fn events_view(&self) -> Seq<Event> {
        self.events@
    }

    /// The game under `id`, if any.
    pub open spec fn game_of(&self, id: [u8; 32]) -> Option<Game> {
        if self.games_view().contains_key(id) {
            Some(self.games_view()[id])
        } else {
            None
        }
    }

    /// Each game is listed in its owner's index and in no other; an index
    /// holds distinct keys, at most `MAX_GAMES_OWNED` of them; each game
    /// carries its own key.
    pub open spec fn index_consistent(&self) -> bool {
        &&& forall|a: u64, id: [u8; 32]|
            #[trigger] self.owned_view(a).contains(id) <==> (self.games_view().contains_key(id)
                && self.games_view()[id].owner == a)
        &&& forall|a: u64|
            #![trigger self.owned_view(a)]
            self.owned_view(a).no_duplicates() && self.owned_view(a).len() <= MAX_GAMES_OWNED
        &&& forall|id: [u8; 32]| #[trigger]
            self.games_view().contains_key(id) ==> self.games_view()[id].key_data == id
    }

    /// The vectors hold what the views say, each key and account once.
    closed spec fn storage_matches(&self) -> bool {
        &&& forall|i: int|
            0 <= i < self.games@.len() ==> self.game_map@.contains_key(
                #[trigger] self.games@[i].key_data,
            ) && self.game_map@[self.games@[i].key_data] == self.games@[i]
        &&& forall|k: [u8; 32]|
            #[trigger] self.game_map@.contains_key(k) ==> exists|i: int|
                0 <= i < self.games@.len() && #[trigger] self.games@[i].key_data == k
        &&& forall|i: int, j: int|
            0 <= i < self.games@.len() && 0 <= j < self.games@.len() && i != j
                ==> #[trigger] self.games@[i].key_data != #[trigger] self.games@[j].key_data
        &&& forall|i: int|
            0 <= i < self.holdings@.len() ==> self.owned_map@.contains_key(
                #[trigger] self.holdings@[i].account,
            ) && self.owned_map@[self.holdings@[i].account] == self.holdings@[i].ids@
        &&& forall|a: u64|
            #[trigger] self.owned_map@.contains_key(a) ==> exists|i: int|
                0 <= i < self.holdings@.len() && #[trigger] self.holdings@[i].account == a
        &&& forall|i: int, j: int|
            0 <= i < self.holdings@.len() && 0 <= j < self.holdings@.len() && i != j
                ==> #[trigger] self.holdings@[i].account != #[trigger] self.holdings@[j].account
    }

    /// Storage agreement depends on the vectors and views alone.
    proof fn lemma_storage_frame(&self, other: &Pallet)
        requires
            self.storage_matches(),
            other.games == self.games,
            other.holdings == self.holdings,
            other.game_map == self.game_map,
            other.owned_map == self.owned_map,
        ensures
            other.storage_matches(),
    {
        assert forall|k: [u8; 32]| #[trigger] other.game_map@.contains_key(k) implies exists|i: int|
            0 <= i < other.games@.len() && #[trigger] other.games@[i].key_data == k by {
            let i = choose|i: int| 0 <= i < self.games@.len() && self.games@[i].key_data == k;
            assert(other.games@[i].key_data == k);
        }
        assert forall|a: u64| #[trigger] other.owned_map@.contains_key(a) implies exists|j: int|
            0 <= j < other.holdings@.len() && #[trigger] other.holdings@[j].account == a by {
            let j = choose|j: int|
                0 <= j < self.holdings@.len() && self.holdings@[j].account == a;
            assert(other.holdings@[j].account == a);
        }
    }

    /// The registry's invariant.
    pub closed spec fn wf(&self) -> bool {
        self.storage_matches() && self.index_consistent()
    }

    /// An empty registry under `context`.
    pub fn new(context: ExecutionContext) -> (r: Self)
        ensures
            r.wf(),
            r.games_view() == Map::<[u8; 32], Game>::empty(),
            forall|a: u64| #[trigger] r.owned_view(a) == Seq::<[u8; 32]>::empty(),
            r.count_view() == 0,
            r.context_view() == context,
            r.events_view() == Seq::<Event>::empty(),
    {
        Pallet {
            games: Vec::new(),
            holdings: Vec::new(),
            game_count: 0,
            context,
            events: Vec::new(),
            game_map: Ghost(Map::empty()),
            owned_map: Ghost(Map::empty()),
        }
    }

    /// Where the game under `id` is stored.
    fn find_game(&self, id: &[u8; 32]) -> (r: Option<usize>)
        requires
            self.storage_matches(),
        ensures
            match r {
                Some(i) => i < self.games@.len() && self.games@[i as int].key_data == *id
                    && self.games_view().contains_key(*id) && self.games_view()[*id]
                    == self.games@[i as int],
                None => !self.games_view().contains_key(*id),
            },
    {
        let mut i: usize = 0;
        while i < self.games.len()
            invariant
                self.storage_matches(),
                i <= self.games@.len(),
                forall|j: int| 0 <= j < i ==> self.games@[j].key_data != *id,
            decreases self.games@.len() - i,
        {
            if same_key(&self.games[i].key_data, id) {
                return Some(i);
            }
            i = i + 1;
        }
        proof {
            if self.game_map@.contains_key(*id) {
                let j = choose|j: int|
                    0 <= j < self.games@.len() && self.games@[j].key_data == *id;
                assert(self.games@[j].key_data == *id);
            }
        }
        None
    }

    /// Where the index of `account` is stored.
    fn find_holding(&self, account: u64) -> (r: Option<usize>)
        requires
            self.storage_matches(),
        ensures
            match r {
                Some(i) => i < self.holdings@.len() && self.holdings@[i as int].account == account
                    && self.owned_view(account) == self.holdings@[i as int].ids@,
                None => self.owned_view(account) == Seq::<[u8; 32]>::empty() && forall|j: int|
                    0 <= j < self.holdings@.len() ==> self.holdings@[j].account != account,
            },
    {
        let mut i: usize = 0;
        while i < self.holdings.len()
            invariant
                self.storage_matches(),
                i <= self.holdings@.len(),
                forall|j: int| 0 <= j < i ==> self.holdings@[j].account != account,
            decreases self.holdings@.len() - i,
        {
            if self.holdings[i].account == account {
                return Some(i);
            }
            i = i + 1;
        }
        proof {
            if self.owned_map@.contains_key(account) {
                let j = choose|j: int|
                    0 <= j < self.holdings@.len() && self.holdings@[j].account == account;
                assert(self.holdings@[j].account == account);
            }
        }
        None
    }

    /// Adds a game under a key that is not yet taken.
    fn insert_game(&mut self, game: Game)
        requires
            old(self).storage_matches(),
            !old(self).games_view().contains_key(game.key_data),
        ensures
            final(self).storage_matches(),
            final(self).games_view() == old(self).games_view().insert(game.key_data, game),
            final(self).owned_map == old(self).owned_map,
            final(self).game_count == old(self).game_count,
            final(self).context == old(self).context,
            final(self).events == old(self).events,
    {
        let ghost old_games = self.games@;
        assert forall|i: int| 0 <= i < old_games.len() implies old_games[i].key_data
            != game.key_data by {
            assert(self.game_map@.contains_key(old_games[i].key_data));
        }
        self.games.push(game);
        self.game_map = Ghost(self.game_map@.insert(game.key_data, game));
        assert forall|k: [u8; 32]| #[trigger] self.game_map@.contains_key(k) implies exists|i: int|
            0 <= i < self.games@.len() && #[trigger] self.games@[i].key_data == k by {
            if k == game.key_data {
                assert(self.games@[old_games.len() as int].key_data == k);
            } else {
                let i = choose|i: int| 0 <= i < old_games.len() && old_games[i].key_data == k;
                assert(self.games@[i].key_data == k);
            }
        }
        assert forall|i: int| 0 <= i < self.games@.len() implies self.game_map@.contains_key(
            #[trigger] self.games@[i].key_data,
        ) && self.game_map@[self.games@[i].key_data] == self.games@[i] by {
            if i < old_games.len() {
                assert(self.games@[i] == old_games[i]);
            }
        }
        assert forall|i: int, j: int|
            0 <= i < self.games@.len() && 0 <= j < self.games@.len() && i != j
                implies #[trigger] self.games@[i].key_data != #[trigger] self.games@[j].key_data by {
            if i < old_games.len() && j < old_games.len() {
                assert(self.games@[i] == old_games[i] && self.games@[j] == old_games[j]);
            }
        }
        assert forall|a: u64| #[trigger] self.owned_map@.contains_key(a) implies exists|j: int|
            0 <= j < self.holdings@.len() && #[trigger] self.holdings@[j].account == a by {
            let j = choose|j: int|
                0 <= j < old(self).holdings@.len() && old(self).holdings@[j].account == a;
            assert(self.holdings@[j].account == a);
        }
    }

    /// Overwrites the record of a game that exists.
    fn replace_game(&mut self, game: Game)
        requires
            old(self).storage_matches(),
            old(self).games_view().contains_key(game.key_data),
        ensures
            final(self).storage_matches(),
            final(self).games_view() == old(self).games_view().insert(game.key_data, game),
            final(self).owned_map == old(self).owned_map,
            final(self).game_count == old(self).game_count,
            final(self).context == old(self).context,
            final(self).events == old(self).events,
    {
        let ghost old_games = self.games@;
        let idx = self.find_game(&game.key_data);
        let i = idx.unwrap();
        self.games.set(i, game);
        self.game_map = Ghost(self.game_map@.insert(game.key_data, game));
        assert forall|k: [u8; 32]| #[trigger] self.game_map@.contains_key(k) implies exists|j: int|
            0 <= j < self.games@.len() && #[trigger] self.games@[j].key_data == k by {
            let j = choose|j: int| 0 <= j < old_games.len() && old_games[j].key_data == k;
            assert(self.games@[j].key_data == k);
        }
        assert forall|a: u64| #[trigger] self.owned_map@.contains_key(a) implies exists|j: int|
            0 <= j < self.holdings@.len() && #[trigger] self.holdings@[j].account == a by {
            let j = choose|j: int|
                0 <= j < old(self).holdings@.len() && old(self).holdings@[j].account == a;
            assert(self.holdings@[j].account == a);
        }
    }

    /// Appends `id` to the index of `account`, which has room.
    fn append_to_index(&mut self, account: u64, id: [u8; 32])
        requires
            old(self).storage_matches(),
            old(self).owned_view(account).len() < MAX_GAMES_OWNED,
        ensures
            final(self).storage_matches(),
            forall|a: u64|
                #[trigger] final(self).owned_view(a) == if a == account {
                    old(self).owned_view(a).push(id)
                } else {
                    old(self).owned_view(a)
                },
            final(self).game_map == old(self).game_map,
            final(self).game_count == old(self).game_count,
            final(self).context == old(self).context,
            final(self).events == old(self).events,
    {
        let ghost old_holdings = self.holdings@;
        let ghost new_ids = self.owned_view(account).push(id);
        let ghost mut pos: int = self.holdings@.len() as int;
        match self.find_holding(account) {
            Some(i) => {
                proof {
                    pos = i as int;
                }
                let mut ids = copy_keys(&self.holdings[i].ids);
                ids.push(id);
                self.holdings.set(i, Holding { account, ids });
            },
            None => {
                let mut ids: Vec<[u8; 32]> = Vec::new();
                ids.push(id);
                assert(ids@ =~= new_ids);
                self.holdings.push(Holding { account, ids });
            },
        }
        self.owned_map = Ghost(self.owned_map@.insert(account, new_ids));
        assert forall|k: [u8; 32]| #[trigger] self.game_map@.contains_key(k) implies exists|i: int|
            0 <= i < self.games@.len() && #[trigger] self.games@[i].key_data == k by {
            let i = choose|i: int| 0 <= i < old(self).games@.len() && old(self).games@[i].key_data == k;
            assert(self.games@[i].key_data == k);
        }
        assert forall|a: u64| #[trigger] self.owned_map@.contains_key(a) implies exists|j: int|
            0 <= j < self.holdings@.len() && #[trigger] self.holdings@[j].account == a by {
            if a == account {
                assert(self.holdings@[pos].account == a);
            } else {
                let j = choose|j: int|
                    0 <= j < old_holdings.len() && old_holdings[j].account == a;
                assert(self.holdings@[j].account == a);
            }
        }
    }

    /// Takes `id` out of the index of `account`, which lists it once.
    fn remove_from_index(&mut self, account: u64, id: [u8; 32])
        requires
            old(self).storage_matches(),
            old(self).owned_view(account).contains(id),
            old(self).owned_view(account).no_duplicates(),
        ensures
            final(self).storage_matches(),
            forall|a: u64|
                #[trigger] final(self).owned_view(a) == if a == account {
                    old(self).owned_view(a).remove(old(self).owned_view(a).index_of(id))
                } else {
                    old(self).owned_view(a)
                },
            final(self).game_map == old(self).game_map,
            final(self).game_count == old(self).game_count,
            final(self).context == old(self).context,
            final(self).events == old(self).events,
    {
        let ghost before = self.owned_view(account);
        let i = self.find_holding(account).unwrap();
        let p = position_of(&self.holdings[i].ids, &id).unwrap();
        let mut ids = copy_keys(&self.holdings[i].ids);
        ids.remove(p);
        self.holdings.set(i, Holding { account, ids });
        proof {
            let q = before.index_of(id);
            assert(before[q] == id);
            assert(q == p as int);
        }
        self.owned_map = Ghost(self.owned_map@.insert(account, before.remove(p as int)));
        assert forall|a: u64| #[trigger] self.owned_map@.contains_key(a) implies exists|j: int|
            0 <= j < self.holdings@.len() && #[trigger] self.holdings@[j].account == a by {
            if a == account {
                assert(self.holdings@[i as int].account == a);
            } else {
                let j = choose|j: int|
                    0 <= j < old(self).holdings@.len() && old(self).holdings@[j].account == a;
                assert(self.holdings@[j].account == a);
            }
        }
        assert forall|k: [u8; 32]| #[trigger] self.game_map@.contains_key(k) implies exists|j: int|
            0 <= j < self.games@.len() && #[trigger] self.games@[j].key_data == k by {
            let j = choose|j: int|
                0 <= j < old(self).games@.len() && old(self).games@[j].key_data == k;
            assert(self.games@[j].key_data == k);
        }
    }

    /// The error that creating a game under `id` for `owner` meets, if any;
    /// checked in this order: issuance counter, taken key, owner's index.
    pub open spec fn create_error(&self, owner: u64, id: [u8; 32]) -> Option<Error> {
        if self.count_view() == u32::MAX {
            Some(Error::TooManyGames)
        } else if self.games_view().contains_key(id) {
            Some(Error::DuplicatedGame)
        } else if self.owned_view(owner).len() >= MAX_GAMES_OWNED {
            Some(Error::TooManyGamesOwned)
        } else {
            None
        }
    }

    /// As `create_error`, with the taken key checked first.
    pub open spec fn mint_error(&self, owner: u64, id: [u8; 32]) -> Option<Error> {
        if self.games_view().contains_key(id) {
            Some(Error::DuplicatedGame)
        } else if self.count_view() == u32::MAX {
            Some(Error::TooManyGames)
        } else if self.owned_view(owner).len() >= MAX_GAMES_OWNED {
            Some(Error::TooManyGamesOwned)
        } else {
            None
        }
    }

    /// `post` is `self` with a new, unpriced game under `id` that `owner`
    /// owns, the counter one higher and a `GameCreated` event recorded.
    pub open spec fn created(&self, post: &Pallet, owner: u64, id: [u8; 32]) -> bool {
        &&& post.games_view() == self.games_view().insert(
            id,
            Game { key_data: id, owner, value: None },
        )
        &&& forall|a: u64|
            #[trigger] post.owned_view(a) == if a == owner {
                self.owned_view(a).push(id)
            } else {
                self.owned_view(a)
            }
        &&& post.count_view() == self.count_view() + 1
        &&& post.context_view() == self.context_view()
        &&& post.events_view() == self.events_view().push(Event::GameCreated { owner, id })
    }

    /// What a creation call under `id` for `owner` did, checking errors in
    /// the order of `create_error`: an error leaves the registry as it was.
    pub open spec fn create_outcome(
        &self,
        post: &Pallet,
        owner: u64,
        id: [u8; 32],
        r: Result<(), Error>,
    ) -> bool {
        match self.create_error(owner, id) {
            Some(e) => r == Err::<(), Error>(e) && *post == *self,
            None => r == Ok::<(), Error>(()) && self.created(post, owner, id),
        }
    }

    /// The key that the next creation derives from the context and counter.
    pub open spec fn is_next_key(&self, id: [u8; 32]) -> bool {
        id@ == blake2_256_of(key_payload(self.context_view(), self.count_view()))
    }

    /// Records a new game; the caller has ruled out every creation error.
    fn add_game(&mut self, owner: u64, id: [u8; 32])
        requires
            old(self).wf(),
            old(self).create_error(owner, id).is_none(),
        ensures
            final(self).wf(),
            old(self).created(final(self), owner, id),
    {
        let ghost pre = *self;
        self.insert_game(Game { key_data: id, owner, value: None });
        self.append_to_index(owner, id);
        let ghost mid = *self;
        self.game_count = self.game_count + 1;
        self.events.push(Event::GameCreated { owner, id });
        proof {
            mid.lemma_storage_frame(self);
            lemma_push_contains(pre.owned_view(owner), id);
            assert forall|a: u64|
                #[trigger] self.owned_view(a) == if a == owner {
                    pre.owned_view(a).push(id)
                } else {
                    pre.owned_view(a)
                } by {
                assert(mid.owned_view(a) == self.owned_view(a));
            }
            assert forall|a: u64, x: [u8; 32]| #[trigger]
                self.owned_view(a).contains(x) <==> (self.games_view().contains_key(x)
                    && self.games_view()[x].owner == a) by {
                assert(pre.owned_view(a).contains(x) <==> (pre.games_view().contains_key(x)
                    && pre.games_view()[x].owner == a));
                assert(mid.owned_view(a) == if a == owner {
                    pre.owned_view(a).push(id)
                } else {
                    pre.owned_view(a)
                });
                assert(self.owned_view(a) == if a == owner {
                    pre.owned_view(a).push(id)
                } else {
                    pre.owned_view(a)
                });
            }
            assert forall|a: u64|
                #![trigger self.owned_view(a)]
                self.owned_view(a).no_duplicates() && self.owned_view(a).len()
                    <= MAX_GAMES_OWNED by {
                assert(pre.owned_view(a).no_duplicates() && pre.owned_view(a).len()
                    <= MAX_GAMES_OWNED);
                assert(mid.owned_view(a) == if a == owner {
                    pre.owned_view(a).push(id)
                } else {
                    pre.owned_view(a)
                });
                assert(self.owned_view(a) == if a == owner {
                    pre.owned_view(a).push(id)
                } else {
                    pre.owned_view(a)
                });
                if a == owner {
                    assert(!pre.owned_view(owner).contains(id));
                }
            }
        }
    }

    /// Creates a game under a caller-chosen key.
    pub fn mint(&mut self, owner: u64, id: [u8; 32]) -> (r: Result<(), Error>)
        requires
            old(self).wf(),
        ensures
            final(self).wf(),
            match old(self).mint_error(owner, id) {
                Some(e) => r == Err::<(), Error>(e) && *final(self) == *old(self),
                None => r == Ok::<(), Error>(()) && old(self).created(final(self), owner, id),
            },
    {
        if self.find_game(&id).is_some() {
            return Err(Error::DuplicatedGame);
        }
        if self.game_count == u32::MAX {
            return Err(Error::TooManyGames);
        }
        if self.owned_len(owner) >= MAX_GAMES_OWNED {
            return Err(Error::TooManyGamesOwned);
        }
        self.add_game(owner, id);
        Ok(())
    }

    /// Creates a game under `key_data` for `owner`, with the errors of
    /// `create_error`.
    pub fn mint_new_game(&mut self, owner: u64, key_data: [u8; 32]) -> (r: Result<(), Error>)
        requires
            old(self).wf(),
        ensures
            final(self).wf(),
            old(self).create_outcome(final(self), owner, key_data, r),
    {
        if self.game_count == u32::MAX {
            return Err(Error::TooManyGames);
        }
        if self.find_game(&key_data).is_some() {
            return Err(Error::DuplicatedGame);
        }
        if self.owned_len(owner) >= MAX_GAMES_OWNED {
            return Err(Error::TooManyGamesOwned);
        }
        self.add_game(owner, key_data);
        Ok(())
    }

    /// The key that the next creation would get.
    pub fn gen_game_key(&self) -> (r: [u8; 32])
        ensures
            self.is_next_key(r),
    {
        gen_key(&self.context, self.game_count)
    }

    /// Creates a game for the signer under a key derived from the context.
    pub fn create_game(&mut self, origin: Origin) -> (r: Result<(), Error>)
        requires
            old(self).wf(),
        ensures
            final(self).wf(),
            match origin {
                Origin::Unsigned => r == Err::<(), Error>(Error::BadOrigin) && *final(self)
                    == *old(self),
                Origin::Signed(caller) => exists|id: [u8; 32]|
                    old(self).is_next_key(id) && old(self).create_outcome(
                        final(self),
                        caller,
                        id,
                        r,
                    ),
            },
    {
        match origin {
            Origin::Unsigned => Err(Error::BadOrigin),
            Origin::Signed(caller) => {
                let key_data = self.gen_game_key();
                self.mint_new_game(caller, key_data)
            },
        }
    }

    /// How many games `account` owns.
    pub fn owned_len(&self, account: u64) -> (r: usize)
        requires
            self.wf(),
        ensures
            r == self.owned_view(account).len(),
    {
        match self.find_holding(account) {
            Some(i) => self.holdings[i].ids.len(),
            None => 0,
        }
    }

    /// The error that a transfer of `id` from `from` to `to` meets, if any;
    /// checked in this order.
    pub open spec fn transfer_error(&self, from: u64, to: u64, id: [u8; 32]) -> Option<Error> {
        if from == to {
            Some(Error::TransferToSelf)
        } else if !self.games_view().contains_key(id) {
            Some(Error::GameNotFound)
        } else if self.games_view()[id].owner != from {
            Some(Error::NotAuthorized)
        } else if self.owned_view(to).len() >= MAX_GAMES_OWNED {
            Some(Error::TooManyGamesOwned)
        } else {
            None
        }
    }

    /// `post` is `self` with game `id` moved from `from` to `to`: its owner
    /// changed, its key taken out of the index of `from` and appended to
    /// that of `to`, its price kept.
    pub open spec fn moved(&self, post: &Pallet, from: u64, to: u64, id: [u8; 32]) -> bool {
        &&& post.games_view() == self.games_view().insert(
            id,
            Game { key_data: id, owner: to, value: self.games_view()[id].value },
        )
        &&& forall|a: u64|
            #[trigger] post.owned_view(a) == if a == from {
                self.owned_view(a).remove(self.owned_view(a).index_of(id))
            } else if a == to {
                self.owned_view(a).push(id)
            } else {
                self.owned_view(a)
            }
        &&& post.count_view() == self.count_view()
        &&& post.context_view() == self.context_view()
    }

    /// What a transfer call did: on an error nothing changed; on success
    /// the game moved and a `GameTransferred` event was recorded.
    pub open spec fn transfer_outcome(
        &self,
        post: &Pallet,
        from: u64,
        to: u64,
        id: [u8; 32],
        r: Result<(), Error>,
    ) -> bool {
        match self.transfer_error(from, to, id) {
            Some(e) => r == Err::<(), Error>(e) && *post == *self,
            None => r == Ok::<(), Error>(()) && self.moved(post, from, to, id)
                && post.events_view() == self.events_view().push(
                Event::GameTransferred { from, to, id },
            ),
        }
    }

    /// The error that setting the price of `id` on behalf of `owner` meets.
    pub open spec fn price_error(&self, owner: u64, id: [u8; 32]) -> Option<Error> {
        if !self.games_view().contains_key(id) {
            Some(Error::GameNotFound)
        } else if self.games_view()[id].owner != owner {
            Some(Error::NotAuthorized)
        } else {
            None
        }
    }

    /// What a price call did: on an error nothing changed; on success the
    /// price of `id` is `price`, all else of the game and every index is
    /// kept, and a `PriceUpdated` event was recorded.
    pub open spec fn price_outcome(
        &self,
        post: &Pallet,
        owner: u64,
        id: [u8; 32],
        price: Option<u64>,
        r: Result<(), Error>,
    ) -> bool {
        match self.price_error(owner, id) {
            Some(e) => r == Err::<(), Error>(e) && *post == *self,
            None => {
                &&& r == Ok::<(), Error>(())
                &&& post.games_view() == self.games_view().insert(
                    id,
                    Game { key_data: id, owner, value: price },
                )
                &&& forall|a: u64| #[trigger] post.owned_view(a) == self.owned_view(a)
                &&& post.count_view() == self.count_view()
                &&& post.context_view() == self.context_view()
                &&& post.events_view() == self.events_view().push(
                    Event::PriceUpdated { owner, id, price },
                )
            },
        }
    }

    /// The error that an offer of `max_price` by `buyer` for `id` meets
    /// before any payment; checked in this order.
    pub open spec fn purchase_error(&self, buyer: u64, id: [u8; 32], max_price: u64) -> Option<
        Error,
    > {
        if !self.games_view().contains_key(id) {
            Some(Error::GameNotFound)
        } else if self.games_view()[id].value.is_none() {
            Some(Error::NotForSale)
        } else if self.games_view()[id].value.unwrap() > max_price {
            Some(Error::PriceTooLow)
        } else if self.games_view()[id].owner == buyer {
            Some(Error::TransferToSelf)
        } else {
            None
        }
    }

    /// The error that a purchase meets, given whether the buyer's payment
    /// went through: the checks of `purchase_error`, then the payment, then
    /// room in the buyer's index.
    pub open spec fn buy_error(&self, buyer: u64, id: [u8; 32], max_price: u64, paid: bool) -> Option<
        Error,
    > {
        if self.purchase_error(buyer, id, max_price).is_some() {
            self.purchase_error(buyer, id, max_price)
        } else if !paid {
            Some(Error::InsufficientFunds)
        } else if self.owned_view(buyer).len() >= MAX_GAMES_OWNED {
            Some(Error::TooManyGamesOwned)
        } else {
            None
        }
    }

    /// What a purchase call did: on an error nothing changed; on success
    /// the game went from its seller to `buyer`, its price was cleared, and
    /// the transfer, price and sale events were recorded in that order.
    pub open spec fn buy_outcome(
        &self,
        post: &Pallet,
        buyer: u64,
        id: [u8; 32],
        max_price: u64,
        paid: bool,
        r: Result<(), Error>,
    ) -> bool {
        match self.buy_error(buyer, id, max_price, paid) {
            Some(e) => r == Err::<(), Error>(e) && *post == *self,
            None => {
                let seller = self.games_view()[id].owner;
                let price = self.games_view()[id].value.unwrap();
                &&& r == Ok::<(), Error>(())
                &&& post.games_view() == self.games_view().insert(
                    id,
                    Game { key_data: id, owner: buyer, value: None },
                )
                &&& forall|a: u64|
                    #[trigger] post.owned_view(a) == if a == seller {
                        self.owned_view(a).remove(self.owned_view(a).index_of(id))
                    } else if a == buyer {
                        self.owned_view(a).push(id)
                    } else {
                        self.owned_view(a)
                    }
                &&& post.count_view() == self.count_view()
                &&& post.context_view() == self.context_view()
                &&& post.events_view() == self.events_view().push(
                    Event::GameTransferred { from: seller, to: buyer, id },
                ).push(Event::PriceUpdated { owner: buyer, id, price: None }).push(
                    Event::GameSold { buyer, id, price },
                )
            },
        }
    }

    /// Moves `game` from `from` to `to`; the caller has ruled out every
    /// transfer error.
    fn move_game(&mut self, from: u64, to: u64, game: Game)
        requires
            old(self).wf(),
            old(self).transfer_error(from, to, game.key_data).is_none(),
            old(self).games_view()[game.key_data] == game,
        ensures
            final(self).wf(),
            old(self).moved(final(self), from, to, game.key_data),
            final(self).events == old(self).events,
    {
        let ghost pre = *self;
        let id = game.key_data;
        proof {
            assert(pre.owned_view(from).contains(id) <==> (pre.games_view().contains_key(id)
                && pre.games_view()[id].owner == from));
            assert(pre.owned_view(from).no_duplicates());
        }
        self.replace_game(Game { key_data: id, owner: to, value: game.value });
        self.remove_from_index(from, id);
        self.append_to_index(to, id);
        proof {
            let src = pre.owned_view(from);
            assert(src.contains(id));
            let p = src.index_of(id);
            assert(src[p] == id);
            lemma_remove_contains(src, p);
            assert(!pre.owned_view(to).contains(id));
            lemma_push_contains(pre.owned_view(to), id);
            assert forall|a: u64, x: [u8; 32]| #[trigger]
                self.owned_view(a).contains(x) <==> (self.games_view().contains_key(x)
                    && self.games_view()[x].owner == a) by {
                assert(pre.owned_view(a).contains(x) <==> (pre.games_view().contains_key(x)
                    && pre.games_view()[x].owner == a));
            }
            assert forall|a: u64|
                #![trigger self.owned_view(a)]
                self.owned_view(a).no_duplicates() && self.owned_view(a).len()
                    <= MAX_GAMES_OWNED by {
                assert(pre.owned_view(a).no_duplicates() && pre.owned_view(a).len()
                    <= MAX_GAMES_OWNED);
            }
        }
    }

    /// Moves game `id` from `from` to `to`, with the errors of
    /// `transfer_error`.
    pub fn do_transfer(&mut self, from: u64, to: u64, id: [u8; 32]) -> (r: Result<(), Error>)
        requires
            old(self).wf(),
        ensures
            final(self).wf(),
            old(self).transfer_outcome(final(self), from, to, id, r),
    {
        if from == to {
            return Err(Error::TransferToSelf);
        }
        let i = match self.find_game(&id) {
            None => return Err(Error::GameNotFound),
            Some(i) => i,
        };
        let game = self.games[i];
        if game.owner != from {
            return Err(Error::NotAuthorized);
        }
        if self.owned_len(to) >= MAX_GAMES_OWNED {
            return Err(Error::TooManyGamesOwned);
        }
        self.move_game(from, to, game);
        let ghost mid = *self;
        self.events.push(Event::GameTransferred { from, to, id });
        proof {
            mid.lemma_storage_frame(self);
            assert forall|a: u64| #[trigger] self.owned_view(a) == mid.owned_view(a) by {}
        }
        Ok(())
    }

    /// Sets or clears the asking price of game `id`, with the errors of
    /// `price_error`.
    pub fn do_set_price(&mut self, from: u64, id: [u8; 32], price: Option<u64>) -> (r: Result<
        (),
        Error,
    >)
        requires
            old(self).wf(),
        ensures
            final(self).wf(),
            old(self).price_outcome(final(self), from, id, price, r),
    {
        let i = match self.find_game(&id) {
            None => return Err(Error::GameNotFound),
            Some(i) => i,
        };
        if self.games[i].owner != from {
            return Err(Error::NotAuthorized);
        }
        let ghost pre = *self;
        self.replace_game(Game { key_data: id, owner: from, value: price });
        let ghost mid = *self;
        self.events.push(Event::PriceUpdated { owner: from, id, price });
        proof {
            mid.lemma_storage_frame(self);
            assert forall|a: u64| #[trigger] self.owned_view(a) == pre.owned_view(a) by {}
            assert forall|a: u64, x: [u8; 32]| #[trigger]
                self.owned_view(a).contains(x) <==> (self.games_view().contains_key(x)
                    && self.games_view()[x].owner == a) by {
                assert(pre.owned_view(a).contains(x) <==> (pre.games_view().contains_key(x)
                    && pre.games_view()[x].owner == a));
            }
            assert forall|a: u64|
                #![trigger self.owned_view(a)]
                self.owned_view(a).no_duplicates() && self.owned_view(a).len()
                    <= MAX_GAMES_OWNED by {
                assert(pre.owned_view(a).no_duplicates() && pre.owned_view(a).len()
                    <= MAX_GAMES_OWNED);
            }
        }
        Ok(())
    }

    /// The payment that an offer of `max_price` by `buyer` for game `id`
    /// calls for, or the error of `purchase_error`.
    pub fn purchase_terms(&self, buyer: u64, id: [u8; 32], max_price: u64) -> (r: Result<
        Payment,
        Error,
    >)
        requires
            self.wf(),
        ensures
            match self.purchase_error(buyer, id, max_price) {
                Some(e) => r == Err::<Payment, Error>(e),
                None => r == Ok::<Payment, Error>(
                    Payment {
                        from: buyer,
                        to: self.games_view()[id].owner,
                        amount: self.games_view()[id].value.unwrap(),
                    },
                ),
            },
    {
        let i = match self.find_game(&id) {
            None => return Err(Error::GameNotFound),
            Some(i) => i,
        };
        let game = self.games[i];
        let price = match game.value {
            None => return Err(Error::NotForSale),
            Some(p) => p,
        };
        if price > max_price {
            return Err(Error::PriceTooLow);
        }
        if game.owner == buyer {
            return Err(Error::TransferToSelf);
        }
        Ok(Payment { from: buyer, to: game.owner, amount: price })
    }

    /// Completes a purchase of game `id` by `buyer`: `paid` tells whether
    /// the payment of `purchase_terms` went through. On success the game is
    /// the buyer's and no longer for sale.
    pub fn do_buy_game(&mut self, buyer: u64, id: [u8; 32], max_price: u64, paid: bool) -> (r:
        Result<(), Error>)
        requires
            old(self).wf(),
        ensures
            final(self).wf(),
            old(self).buy_outcome(final(self), buyer, id, max_price, paid, r),
    {
        let terms = self.purchase_terms(buyer, id, max_price);
        let payment = match terms {
            Err(e) => return Err(e),
            Ok(p) => p,
        };
        if !paid {
            return Err(Error::InsufficientFunds);
        }
        let ghost pre = *self;
        let moved = self.do_transfer(payment.to, buyer, id);
        if moved.is_err() {
            return moved;
        }
        let ghost mid = *self;
        assert(mid.games_view()[id].owner == buyer);
        assert(mid.price_error(buyer, id).is_none());
        let cleared = self.do_set_price(buyer, id, None);
        let ghost priced = *self;
        self.events.push(Event::GameSold { buyer, id, price: payment.amount });
        proof {
            let post = *self;
            priced.lemma_storage_frame(&post);
            assert(post.games_view() =~= pre.games_view().insert(
                id,
                Game { key_data: id, owner: buyer, value: None },
            ));
            assert forall|a: u64| #[trigger] post.owned_view(a) == mid.owned_view(a) by {
                assert(priced.owned_view(a) == mid.owned_view(a));
            }
            assert forall|a: u64, x: [u8; 32]| #[trigger]
                post.owned_view(a).contains(x) <==> (post.games_view().contains_key(x)
                    && post.games_view()[x].owner == a) by {
                assert(priced.owned_view(a) == post.owned_view(a));
                assert(priced.owned_view(a).contains(x) <==> (priced.games_view().contains_key(x)
                    && priced.games_view()[x].owner == a));
            }
            assert forall|a: u64|
                #![trigger post.owned_view(a)]
                post.owned_view(a).no_duplicates() && post.owned_view(a).len()
                    <= MAX_GAMES_OWNED by {
                assert(priced.owned_view(a) == post.owned_view(a));
            }
        }
        Ok(())
    }

    /// Transfers game `id` from the signer to `to`.
    pub fn transfer_game(&mut self, origin: Origin, to: u64, id: [u8; 32]) -> (r: Result<(), Error>)
        requires
            old(self).wf(),
        ensures
            final(self).wf(),
            match origin {
                Origin::Unsigned => r == Err::<(), Error>(Error::BadOrigin) && *final(self)
                    == *old(self),
                Origin::Signed(from) => old(self).transfer_outcome(final(self), from, to, id, r),
            },
    {
        match origin {
            Origin::Unsigned => Err(Error::BadOrigin),
            Origin::Signed(from) => self.do_transfer(from, to, id),
        }
    }

    /// Sets or clears the asking price of the signer's game `id`.
    pub fn set_game_price(&mut self, origin: Origin, id: [u8; 32], price: Option<u64>) -> (r:
        Result<(), Error>)
        requires
            old(self).wf(),
        ensures
            final(self).wf(),
            match origin {
                Origin::Unsigned => r == Err::<(), Error>(Error::BadOrigin) && *final(self)
                    == *old(self),
                Origin::Signed(owner) => old(self).price_outcome(final(self), owner, id, price, r),
            },
    {
        match origin {
            Origin::Unsigned => Err(Error::BadOrigin),
            Origin::Signed(owner) => self.do_set_price(owner, id, price),
        }
    }

    /// Buys game `id` for the signer; `paid` tells whether the payment of
    /// `purchase_terms` went through.
    pub fn buy_game(&mut self, origin: Origin, id: [u8; 32], max_price: u64, paid: bool) -> (r:
        Result<(), Error>)
        requires
            old(self).wf(),
        ensures
            final(self).wf(),
            match origin {
                Origin::Unsigned => r == Err::<(), Error>(Error::BadOrigin) && *final(self)
                    == *old(self),
                Origin::Signed(buyer) => old(self).buy_outcome(
                    final(self),
                    buyer,
                    id,
                    max_price,
                    paid,
                    r,
                ),
            },
    {
        match origin {
            Origin::Unsigned => Err(Error::BadOrigin),
            Origin::Signed(buyer) => self.do_buy_game(buyer, id, max_price, paid),
        }
    }

    /// The game under `id`, if any.
    pub fn game(&self, id: [u8; 32]) -> (r: Option<Game>)
        requires
            self.wf(),
        ensures
            r == self.game_of(id),
    {
        match self.find_game(&id) {
            Some(i) => Some(self.games[i]),
            None => None,
        }
    }

    /// Whether a game exists under `id`.
    pub fn contains_game(&self, id: [u8; 32]) -> (r: bool)
        requires
            self.wf(),
        ensures
            r == self.games_view().contains_key(id),
    {
        self.find_game(&id).is_some()
    }

    /// The keys of all games, each once, oldest first.
    pub fn game_keys(&self) -> (r: Vec<[u8; 32]>)
        requires
            self.wf(),
        ensures
            r@.no_duplicates(),
            forall|id: [u8; 32]| r@.contains(id) <==> self.games_view().contains_key(id),
    {
        let mut out: Vec<[u8; 32]> = Vec::new();
        let mut i: usize = 0;
        while i < self.games.len()
            invariant
                self.storage_matches(),
                i <= self.games@.len(),
                out@.len() == i,
                forall|j: int| 0 <= j < i ==> out@[j] == #[trigger] self.games@[j].key_data,
            decreases self.games@.len() - i,
        {
            out.push(self.games[i].key_data);
            i = i + 1;
        }
        assert forall|id: [u8; 32]| out@.contains(id) <==> self.games_view().contains_key(id) by {
            if self.games_view().contains_key(id) {
                let j = choose|j: int| 0 <= j < self.games@.len() && self.games@[j].key_data == id;
                assert(out@[j] == id);
            }
            if out@.contains(id) {
                let j = choose|j: int| 0 <= j < out@.len() && out@[j] == id;
                assert(self.games@[j].key_data == id);
            }
        }
        assert forall|x: int, y: int| 0 <= x < out@.len() && 0 <= y < out@.len() && x != y implies out@[x]
            != out@[y] by {
            assert(out@[x] == self.games@[x].key_data && out@[y] == self.games@[y].key_data);
        }
        out
    }

    /// The keys that `account` owns, in the order they came to it.
    pub fn games_owned_by(&self, account: u64) -> (r: Vec<[u8; 32]>)
        requires
            self.wf(),
        ensures
            r@ == self.owned_view(account),
    {
        match self.find_holding(account) {
            Some(i) => copy_keys(&self.holdings[i].ids),
            None => Vec::new(),
        }
    }

    /// The issuance counter.
    pub fn game_count(&self) -> (r: u32)
        ensures
            r == self.count_view(),
    {
        self.game_count
    }

    /// Overwrites the issuance counter, which only feeds key derivation.
    pub fn set_game_count(&mut self, count: u32)
        requires
            old(self).wf(),
        ensures
            final(self).wf(),
            final(self).count_view() == count,
            final(self).games_view() == old(self).games_view(),
            forall|a: u64| #[trigger] final(self).owned_view(a) == old(self).owned_view(a),
            final(self).context_view() == old(self).context_view(),
            final(self).events_view() == old(self).events_view(),
    {
        let ghost pre = *self;
        self.game_count = count;
        proof {
            pre.lemma_storage_frame(self);
            assert forall|a: u64| #[trigger] self.owned_view(a) == pre.owned_view(a) by {}
        }
    }

    /// The execution context that key derivation reads.
    pub fn context(&self) -> (r: ExecutionContext)
        ensures
            r == self.context_view(),
    {
        self.context
    }

    /// Replaces the execution context, as the host does between calls.
    pub fn set_context(&mut self, context: ExecutionContext)
        requires
            old(self).wf(),
        ensures
            final(self).wf(),
            final(self).context_view() == context,
            final(self).games_view() == old(self).games_view(),
            forall|a: u64| #[trigger] final(self).owned_view(a) == old(self).owned_view(a),
            final(self).count_view() == old(self).count_view(),
            final(self).events_view() == old(self).events_view(),
    {
        let ghost pre = *self;
        self.context = context;
        proof {
            pre.lemma_storage_frame(self);
            assert forall|a: u64| #[trigger] self.owned_view(a) == pre.owned_view(a) by {}
        }
    }

    /// The events recorded so far, oldest first.
    pub fn events(&self) -> (r: &Vec<Event>)
        ensures
            r@ == self.events_view(),
    {
        &self.events
    }

    /// The latest event, if any.
    pub fn last_event(&self) -> (r: Option<Event>)
        ensures
            r == if self.events_view().len() == 0 {
                None
            } else {
                Some(self.events_view().last())
            },
    {
        if self.events.len() == 0 {
            None
        } else {
            Some(self.events[self.events.len() - 1])
        }
    }
}

/// In a well-formed registry, a key is in the index of an account exactly
/// when a game is registered under it and that account owns it.
pub proof fn lemma_index_matches_owners(s: &Pallet)
    requires
        s.wf(),
    ensures
        forall|a: u64, id: [u8; 32]|
            #[trigger] s.owned_view(a).contains(id) <==> (s.games_view().contains_key(id)
                && s.games_view()[id].owner == a),
{
}

/// No successful call removes a game: creations, transfers, price changes
/// and purchases all keep every registered key.
pub proof fn lemma_games_never_removed(
    s0: &Pallet,
    s1: &Pallet,
    account: u64,
    other: u64,
    id: [u8; 32],
    max_price: u64,
    paid: bool,
    price: Option<u64>,
    r: Result<(), Error>,
)
    ensures
        s0.create_outcome(s1, account, id, r) ==> s0.games_view().dom().subset_of(
            s1.games_view().dom(),
        ),
        s0.transfer_outcome(s1, account, other, id, r) ==> s0.games_view().dom().subset_of(
            s1.games_view().dom(),
        ),
        s0.price_outcome(s1, account, id, price, r) ==> s0.games_view().dom().subset_of(
            s1.games_view().dom(),
        ),
        s0.buy_outcome(s1, account, id, max_price, paid, r) ==> s0.games_view().dom().subset_of(
            s1.games_view().dom(),
        ),
{
}

/// Two successful creations hand out different keys, however many calls
/// that keep the registered games lie between them.
pub proof fn lemma_created_keys_differ(
    s0: &Pallet,
    s1: &Pallet,
    s2: &Pallet,
    s3: &Pallet,
    owner1: u64,
    id1: [u8; 32],
    owner2: u64,
    id2: [u8; 32],
)
    requires
        s0.create_outcome(s1, owner1, id1, Ok(())),
        s1.games_view().dom().subset_of(s2.games_view().dom()),
        s2.create_outcome(s3, owner2, id2, Ok(())),
    ensures
        id1 != id2,
{
    assert(s1.games_view().contains_key(id1));
}

/// A failed transfer leaves the game and both accounts' indices as they
/// were.
pub proof fn lemma_failed_transfer_changes_nothing(
    s0: &Pallet,
    s1: &Pallet,
    from: u64,
    to: u64,
    id: [u8; 32],
    r: Result<(), Error>,
)
    requires
        s0.transfer_outcome(s1, from, to, id, r),
        r.is_err(),
    ensures
        s1.game_of(id) == s0.game_of(id),
        s1.owned_view(from) == s0.owned_view(from),
        s1.owned_view(to) == s0.owned_view(to),
{
}

/// A transfer from an account to itself fails with `TransferToSelf` and
/// changes nothing, whoever owns the game.
pub proof fn lemma_self_transfer_rejected(
    s0: &Pallet,
    s1: &Pallet,
    account: u64,
    id: [u8; 32],
    r: Result<(), Error>,
)
    requires
        s0.transfer_outcome(s1, account, account, id, r),
    ensures
        r == Err::<(), Error>(Error::TransferToSelf),
        *s1 == *s0,
{
}

/// After a successful purchase the buyer owns the game and it is not for
/// sale.
pub proof fn lemma_sale_clears_price(
    s0: &Pallet,
    s1: &Pallet,
    buyer: u64,
    id: [u8; 32],
    max_price: u64,
    paid: bool,
    r: Result<(), Error>,
)
    requires
        s0.buy_outcome(s1, buyer, id, max_price, paid, r),
        r.is_ok(),
    ensures
        s1.game_of(id) == Some(Game { key_data: id, owner: buyer, value: None }),
{
}

/// Each successful creation adds one key to the owner's index.
pub proof fn lemma_creation_grows_index(s0: &Pallet, s1: &Pallet, owner: u64, id: [u8; 32])
    requires
        s0.create_outcome(s1, owner, id, Ok(())),
    ensures
        s1.owned_view(owner).len() == s0.owned_view(owner).len() + 1,
{
}

/// Once an account owns `MAX_GAMES_OWNED` games, a creation for it under a
/// fresh key fails with `TooManyGamesOwned` and changes nothing.
pub proof fn lemma_full_index_rejects_creation(
    s0: &Pallet,
    s1: &Pallet,
    owner: u64,
    id: [u8; 32],
    r: Result<(), Error>,
)
    requires
        s0.owned_view(owner).len() == MAX_GAMES_OWNED,
        s0.count_view() < u32::MAX,
        !s0.games_view().contains_key(id),
        s0.create_outcome(s1, owner, id, r),
    ensures
        r == Err::<(), Error>(Error::TooManyGamesOwned),
        *s1 == *s0,
{
}

} // verus!
