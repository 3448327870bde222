//! The session directory of the multiplayer server: the matchmaking queue,
//! private lobbies, the identity-to-game index, the games themselves and the
//! per-identity push channels. Everything here is plain data: identities are
//! numbers minted from random UUIDs, channels are handles the caller owns,
//! and the caller performs the sends and the open-or-closed checks, feeding
//! the answers back in.

use vstd::prelude::*;
use vstd::string::StrSliceExecFns;

use crate::tictactoe::TicModel;
use crate::tictactoe::TicTacToe;
use crate::tictactoe::tic_wf;
use crate::types::Color;
use crate::types::Coordinates;
use crate::types::EndResult;
use crate::types::GameError;

verus! {

/// Why a call was denied: the identity is in no game, it is not one of the
/// two players of the game it resolves to, or it does not hold the turn.
#[derive(Debug, Clone, Copy, PartialEq, Eq, Structural)]
pub enum DenyReason {
    NotJoined,
    NotInGame,
    NotYourTurn,
}

/// Failure of a directory call.
#[derive(Debug, Clone, Copy, PartialEq, Eq, Structural)]
pub enum ServerError {
    PermissionDenied(DenyReason),
    NotFound,
    Engine(GameError),
}

/// One running game: the two identities and the meta-game between them.
#[derive(Debug, Clone)]
pub struct GameEntry {
    pub id: u128,
    pub white: u128,
    pub black: u128,
    pub game: TicTacToe,
}

/// The model of one running game.
#[verifier::ext_equal]
pub struct GameModel {
    pub id: u128,
    pub white: u128,
    pub black: u128,
    pub game: TicModel,
}

impl View for GameEntry {
    type V = GameModel;

    open spec fn view(&self) -> GameModel {
        GameModel { id: self.id, white: self.white, black: self.black, game: self.game@ }
    }
}

/// The index of the first pair keyed `k`, or -1.
pub open spec fn assoc_idx<V>(s: Seq<(u128, V)>, k: u128) -> int
    decreases s.len(),
{
    if s.len() == 0 {
        -1
    } else if s[0].0 == k {
        0
    } else {
        let r = assoc_idx(s.skip(1), k);
        if r == -1 {
            -1
        } else {
            r + 1
        }
    }
}

/// The value of the first pair keyed `k`, if any.
pub open spec fn assoc_get<V>(s: Seq<(u128, V)>, k: u128) -> Option<V> {
    if assoc_idx(s, k) == -1 {
        None
    } else {
        Some(s[assoc_idx(s, k)].1)
    }
}

/// The pairs with the first pair keyed `k` replaced by `(k, v)`, or `(k, v)`
/// appended when no pair is keyed `k`.
pub open spec fn assoc_put<V>(s: Seq<(u128, V)>, k: u128, v: V) -> Seq<(u128, V)> {
    if assoc_idx(s, k) == -1 {
        s.push((k, v))
    } else {
        s.update(assoc_idx(s, k), (k, v))
    }
}

/// Where the first pair keyed `k` sits: at a real index holding `k`, with no
/// earlier pair holding it, or nowhere while no pair holds it.
pub proof fn lemma_assoc_idx<V>(s: Seq<(u128, V)>, k: u128)
    ensures
        assoc_idx(s, k) == -1 ==> forall|i: int| 0 <= i < s.len() ==> (#[trigger] s[i]).0 != k,
        assoc_idx(s, k) != -1 ==> 0 <= assoc_idx(s, k) < s.len() && s[assoc_idx(s, k)].0 == k
            && forall|i: int| 0 <= i < assoc_idx(s, k) ==> (#[trigger] s[i]).0 != k,
    decreases s.len(),
{
    if s.len() != 0 && s[0].0 != k {
        lemma_assoc_idx(s.skip(1), k);
        assert(forall|i: int| 1 <= i < s.len() ==> (#[trigger] s[i]) == s.skip(1)[i - 1]);
        let t = s.skip(1);
        if assoc_idx(t, k) == -1 {
            assert(forall|i: int| 0 <= i < s.len() ==> (#[trigger] s[i]).0 != k) by {
                assert(forall|i: int| 1 <= i < s.len() ==> (#[trigger] s[i]).0 == t[i - 1].0);
            }
        } else {
            let j = assoc_idx(s, k);
            assert(j == assoc_idx(t, k) + 1);
            assert(s[j] == t[j - 1]);
            assert(forall|i: int| 0 <= i < j ==> (#[trigger] s[i]).0 != k) by {
                assert(forall|i: int| 1 <= i < j ==> (#[trigger] s[i]).0 == t[i - 1].0);
            }
        }
    }
}

/// A position holding `k`, with nothing earlier holding it, is where the
/// first pair keyed `k` sits.
pub proof fn lemma_assoc_idx_is<V>(s: Seq<(u128, V)>, k: u128, m: int)
    requires
        0 <= m < s.len(),
        s[m].0 == k,
        forall|i: int| 0 <= i < m ==> (#[trigger] s[i]).0 != k,
    ensures
        assoc_idx(s, k) == m,
    decreases s.len(),
{
    if m == 0 {
    } else {
        assert(s[0].0 != k);
        let t = s.skip(1);
        assert(forall|i: int| 0 <= i < t.len() ==> #[trigger] t[i] == s[i + 1]);
        lemma_assoc_idx_is(t, k, m - 1);
    }
}

/// When nothing holds `k`, no pair is keyed `k`.
pub proof fn lemma_assoc_idx_none<V>(s: Seq<(u128, V)>, k: u128)
    requires
        forall|i: int| 0 <= i < s.len() ==> (#[trigger] s[i]).0 != k,
    ensures
        assoc_idx(s, k) == -1,
    decreases s.len(),
{
    if s.len() != 0 {
        let t = s.skip(1);
        assert(forall|i: int| 0 <= i < t.len() ==> #[trigger] t[i] == s[i + 1]);
        lemma_assoc_idx_none(t, k);
    }
}

/// Looking a key up after a put: the put key maps to the new value, every
/// other key maps as before.
pub proof fn lemma_assoc_put<V>(s: Seq<(u128, V)>, k: u128, v: V, k2: u128)
    ensures
        assoc_get(assoc_put(s, k, v), k2) == (if k2 == k {
            Some(v)
        } else {
            assoc_get(s, k2)
        }),
{
    lemma_assoc_idx(s, k);
    lemma_assoc_idx(s, k2);
    let t = assoc_put(s, k, v);
    let j = assoc_idx(s, k);
    if j == -1 {
        assert(t == s.push((k, v)));
        assert(t[s.len() as int] == (k, v));
        assert(forall|i: int| 0 <= i < s.len() ==> #[trigger] t[i] == s[i]);
        if k2 == k {
            lemma_assoc_idx_is(t, k, s.len() as int);
            assert(assoc_get(t, k2) == Some(v));
        } else {
            let m = assoc_idx(s, k2);
            if m == -1 {
                lemma_assoc_idx_none(t, k2);
            } else {
                lemma_assoc_idx_is(t, k2, m);
                assert(t[m].1 == s[m].1);
            }
        }
    } else {
        assert(t == s.update(j, (k, v)));
        assert(t[j] == (k, v));
        assert(forall|i: int| 0 <= i < s.len() && i != j ==> #[trigger] t[i] == s[i]);
        if k2 == k {
            lemma_assoc_idx_is(t, k, j);
            assert(assoc_get(t, k2) == Some(v));
        } else {
            let m = assoc_idx(s, k2);
            if m == -1 {
                lemma_assoc_idx_none(t, k2);
            } else {
                assert(m != j);
                lemma_assoc_idx_is(t, k2, m);
                assert(t[m].1 == s[m].1);
            }
        }
    }
}

/// The model of the whole directory.
#[verifier::ext_equal]
pub struct DirModel {
    pub queue: Seq<(u128, u64)>,
    pub receivers: Seq<(u128, u64)>,
    pub game_ids: Seq<(u128, u128)>,
    pub games: Seq<(u128, GameModel)>,
    pub lobbies: Seq<(Seq<char>, (u128, u64))>,
}

/// A consistent directory: every indexed identity resolves to a game that
/// exists, every game is keyed by its own id, and every game is well
/// formed.
pub open spec fn dir_wf(d: DirModel) -> bool {
    &&& forall|x: u128|
        #![trigger assoc_get(d.game_ids, x)]
        match assoc_get(d.game_ids, x) {
            Some(gid) => assoc_get(d.games, gid) is Some,
            None => true,
        }
    &&& forall|i: int| 0 <= i < d.games.len() ==> (#[trigger] d.games[i]).1.id == d.games[i].0
    &&& forall|i: int| 0 <= i < d.games.len() ==> tic_wf((#[trigger] d.games[i]).1.game)
}

/// The matchmaking queue, the lobby registry, the identity index, the games
/// and the push channels of the server.
#[derive(Debug)]
pub struct GameService {
    pub queue: Vec<(u128, u64)>,
    pub receivers: Vec<(u128, u64)>,
    pub game_ids: Vec<(u128, u128)>,
    pub games: Vec<(u128, GameEntry)>,
    pub lobbies: Vec<(String, (u128, u64))>,
}

impl View for GameService {
    type V = DirModel;

    open spec fn view(&self) -> DirModel {
        DirModel {
            queue: self.queue@,
            receivers: self.receivers@,
            game_ids: self.game_ids@,
            games: self.games@.map_values(|e: (u128, GameEntry)| (e.0, e.1@)),
            lobbies: self.lobbies@.map_values(|e: (String, (u128, u64))| (e.0@, e.1)),
        }
    }
}

impl Default for GameService {
    /// An empty directory: nobody waiting, no lobby, no game.
    fn default() -> (r: GameService)
        ensures
            r@.queue.len() == 0,
            r@.receivers.len() == 0,
            r@.game_ids.len() == 0,
            r@.games.len() == 0,
            r@.lobbies.len() == 0,
            dir_wf(r@),
    {
        let r = GameService {
            queue: Vec::new(),
            receivers: Vec::new(),
            game_ids: Vec::new(),
            games: Vec::new(),
            lobbies: Vec::new(),
        };
        proof {
            assert(r@.games =~= Seq::<(u128, GameModel)>::empty());
            assert(r@.lobbies =~= Seq::<(Seq<char>, (u128, u64))>::empty());
        }
        r
    }
}

/// Relies on `uuid::Uuid::new_v4` and `Uuid::as_u128`: a freshly drawn
/// random version-4 UUID, taken as its 128-bit value. The draw is chance,
/// so nothing is promised of the result.
#[verifier::external_body]
fn mint_identity() -> u128 {
    uuid::Uuid::new_v4().as_u128()
}

/// Relies on base64's `Engine::encode` with the URL-safe alphabet and no
/// padding: the encoding is a function of the input bytes alone.
#[verifier::external_body]
fn encode_code(bytes: &Vec<u8>) -> (r: String)
    ensures
        r@ == b64_url_of(bytes@),
{
    base64::Engine::encode(&base64::engine::general_purpose::URL_SAFE_NO_PAD, bytes)
}

pub uninterp spec fn b64_url_of(bytes: Seq<u8>) -> Seq<char>;

/// The sixteen bytes of an identity, most significant first.
fn identity_bytes(id: u128) -> (r: Vec<u8>)
    ensures
        r@.len() == 16,
{
    let mut r: Vec<u8> = Vec::new();
    let mut i: usize = 0;
    let mut rest = id;
    while i < 16
        invariant
            i <= 16,
            r@.len() == i,
        decreases 16 - i,
    {
        r.push(#[verifier::truncate] ((rest >> 120) as u8));
        rest = rest << 8;
        i = i + 1;
    }
    r
}

/// Looks up the first pair keyed `k`, as `assoc_idx` describes.
#[verifier::loop_isolation(false)]
fn assoc_find<V>(s: &Vec<(u128, V)>, k: u128) -> (r: Option<usize>)
    ensures
        r is Some <==> assoc_idx(s@, k) != -1,
        r matches Some(i) ==> i == assoc_idx(s@, k) && i < s@.len() && s@[i as int].0 == k,
{
    proof {
        lemma_assoc_idx(s@, k);
    }
    let mut i: usize = 0;
    while i < s.len()
        invariant
            i <= s@.len(),
            forall|j: int| 0 <= j < i ==> (#[trigger] s@[j]).0 != k,
        decreases s@.len() - i,
    {
        let e = &s[i];
        if e.0 == k {
            proof {
                assert(assoc_idx(s@, k) != -1);
                assert(assoc_idx(s@, k) == i);
            }
            return Some(i);
        }
        i = i + 1;
    }
    proof {
        assert(assoc_idx(s@, k) == -1) by {
            if assoc_idx(s@, k) != -1 {
                assert(s@[assoc_idx(s@, k)].0 == k);
            }
        }
    }
    None
}

} // verus!

verus! {

/// What a matchmaking join produced: a waiting entry, or a fresh game
/// against the oldest open waiter.
#[derive(Debug, Clone, Copy, PartialEq, Eq, Structural)]
pub enum JoinOutcome {
    Queued { id: u128 },
    Paired { white: u128, white_chan: u64, black: u128, game_id: u128 },
}

/// A freshly created lobby: its host identity and its code.
#[derive(Debug)]
pub struct LobbyCreated {
    pub host: u128,
    pub code: String,
}

/// The index of the first lobby with the given code, or -1.
pub open spec fn lobby_idx(s: Seq<(Seq<char>, (u128, u64))>, k: Seq<char>) -> int
    decreases s.len(),
{
    if s.len() == 0 {
        -1
    } else if s[0].0 == k {
        0
    } else {
        let r = lobby_idx(s.skip(1), k);
        if r == -1 {
            -1
        } else {
            r + 1
        }
    }
}

/// The lobbies with the entry for `k` replaced, or a new entry appended.
pub open spec fn lobby_put(
    s: Seq<(Seq<char>, (u128, u64))>,
    k: Seq<char>,
    v: (u128, u64),
) -> Seq<(Seq<char>, (u128, u64))> {
    if lobby_idx(s, k) == -1 {
        s.push((k, v))
    } else {
        s.update(lobby_idx(s, k), (k, v))
    }
}

/// Where the first lobby with code `k` sits.
pub proof fn lemma_lobby_idx(s: Seq<(Seq<char>, (u128, u64))>, k: Seq<char>)
    ensures
        lobby_idx(s, k) == -1 ==> forall|i: int| 0 <= i < s.len() ==> (#[trigger] s[i]).0 != k,
        lobby_idx(s, k) != -1 ==> 0 <= lobby_idx(s, k) < s.len() && s[lobby_idx(s, k)].0 == k
            && forall|i: int| 0 <= i < lobby_idx(s, k) ==> (#[trigger] s[i]).0 != k,
    decreases s.len(),
{
    if s.len() != 0 && s[0].0 != k {
        lemma_lobby_idx(s.skip(1), k);
        assert(forall|i: int| 1 <= i < s.len() ==> (#[trigger] s[i]) == s.skip(1)[i - 1]);
        let t = s.skip(1);
        if lobby_idx(t, k) == -1 {
            assert(forall|i: int| 0 <= i < s.len() ==> (#[trigger] s[i]).0 != k) by {
                assert(forall|i: int| 1 <= i < s.len() ==> (#[trigger] s[i]).0 == t[i - 1].0);
            }
        } else {
            let j = lobby_idx(s, k);
            assert(s[j] == t[j - 1]);
            assert(forall|i: int| 0 <= i < j ==> (#[trigger] s[i]).0 != k) by {
                assert(forall|i: int| 1 <= i < j ==> (#[trigger] s[i]).0 == t[i - 1].0);
            }
        }
    }
}

/// The meta-game every fresh session starts with.
pub open spec fn initial_tic() -> TicModel {
    TicModel {
        boards: Seq::new(3, |i: int| Seq::new(3, |j: int| crate::board::initial_model())),
        next: Color::White,
    }
}

/// The index of the first open flag, or -1.
pub open spec fn first_open(flags: Seq<bool>) -> int
    decreases flags.len(),
{
    if flags.len() == 0 {
        -1
    } else if flags[0] {
        0
    } else {
        let r = first_open(flags.skip(1));
        if r == -1 {
            -1
        } else {
            r + 1
        }
    }
}

/// Where the first open flag sits.
pub proof fn lemma_first_open(flags: Seq<bool>)
    ensures
        first_open(flags) == -1 ==> forall|i: int| 0 <= i < flags.len() ==> !(#[trigger] flags[i]),
        first_open(flags) != -1 ==> 0 <= first_open(flags) < flags.len() && flags[first_open(
            flags,
        )] && forall|i: int| 0 <= i < first_open(flags) ==> !(#[trigger] flags[i]),
    decreases flags.len(),
{
    if flags.len() != 0 && !flags[0] {
        lemma_first_open(flags.skip(1));
        assert(forall|i: int| 1 <= i < flags.len() ==> (#[trigger] flags[i]) == flags.skip(1)[i
            - 1]);
    }
}

/// The directory after one matchmaking join with the given closedness
/// answers: every closed waiter before the first open one is discarded; an
/// open waiter is paired with the joiner into a fresh game, the joiner as
/// Black; with no open waiter the joiner replaces the emptied queue.
pub open spec fn join_transition(
    d: DirModel,
    chan: u64,
    flags: Seq<bool>,
    id: u128,
    gid: u128,
) -> DirModel {
    let k = first_open(flags);
    if k == -1 {
        DirModel { queue: seq![(id, chan)], ..d }
    } else {
        let w = d.queue[k].0;
        DirModel {
            queue: d.queue.skip(k + 1),
            game_ids: assoc_put(assoc_put(d.game_ids, id, gid), w, gid),
            games: assoc_put(
                d.games,
                gid,
                GameModel { id: gid, white: w, black: id, game: initial_tic() },
            ),
            ..d
        }
    }
}

/// The position of the first open flag, as `first_open` describes.
#[verifier::loop_isolation(false)]
fn find_first_open(flags: &Vec<bool>) -> (r: Option<usize>)
    ensures
        r is Some <==> first_open(flags@) != -1,
        r matches Some(k) ==> k == first_open(flags@) && k < flags@.len() && flags@[k as int],
{
    proof {
        lemma_first_open(flags@);
    }
    let mut k: usize = 0;
    while k < flags.len()
        invariant
            k <= flags@.len(),
            forall|i: int| 0 <= i < k ==> !(#[trigger] flags@[i]),
        decreases flags@.len() - k,
    {
        if flags[k] {
            proof {
                assert(first_open(flags@) != -1) by {
                    if first_open(flags@) == -1 {
                        assert(!flags@[k as int]);
                    }
                }
                assert(first_open(flags@) == k) by {
                    if first_open(flags@) < k {
                        assert(!flags@[first_open(flags@)]);
                    }
                    if first_open(flags@) > k {
                        assert(!flags@[k as int]);
                    }
                }
            }
            return Some(k);
        }
        k = k + 1;
    }
    proof {
        assert(first_open(flags@) == -1) by {
            if first_open(flags@) != -1 {
                assert(flags@[first_open(flags@)]);
            }
        }
    }
    None
}

/// Replaces or appends the pair keyed `k`, as `assoc_put` describes.
#[verifier::loop_isolation(false)]
fn assoc_put_exec<V: Copy>(s: &mut Vec<(u128, V)>, k: u128, v: V)
    ensures
        final(s)@ == assoc_put(old(s)@, k, v),
{
    match assoc_find(s, k) {
        Some(i) => {
            s.set(i, (k, v));
        },
        None => {
            s.push((k, v));
        },
    }
}

impl GameService {
    /// Stores a game under its id, as `assoc_put` over the directory's model
    /// describes.
    #[verifier::loop_isolation(false)]
    fn games_put(&mut self, k: u128, v: GameEntry)
        ensures
            final(self)@ == (DirModel {
                games: assoc_put(old(self)@.games, k, v@),
                ..old(self)@
            }),
    {
        let ghost oldmap = self@.games;
        proof {
            lemma_assoc_idx(self.games@, k);
            lemma_assoc_idx(oldmap, k);
            if assoc_idx(self.games@, k) == -1 {
                assert(forall|i: int| 0 <= i < oldmap.len() ==> (#[trigger] oldmap[i]).0
                    == self.games@[i].0);
                lemma_assoc_idx_none(oldmap, k);
            } else {
                let m = assoc_idx(self.games@, k);
                assert(oldmap[m].0 == k);
                assert(forall|i: int| 0 <= i < m ==> (#[trigger] oldmap[i]).0
                    == self.games@[i].0);
                lemma_assoc_idx_is(oldmap, k, m);
            }
        }
        match assoc_find(&self.games, k) {
            Some(i) => {
                self.games.set(i, (k, v));
                proof {
                    assert(self@.games =~= oldmap.update(assoc_idx(oldmap, k), (k, v@)));
                }
            },
            None => {
                self.games.push((k, v));
                proof {
                    assert(self@.games =~= oldmap.push((k, v@)));
                }
            },
        }
        proof {
            assert(self@ =~= (DirModel { games: assoc_put(oldmap, k, v@), ..old(self)@ }));
        }
    }

    /// Enters random matchmaking on behalf of one caller: `flags` answers,
    /// for each queued waiter in order, whether its channel is still open.
    /// The outcome and the new directory follow `join_transition`; the
    /// minted identities are returned in the outcome.
    #[verifier::loop_isolation(false)]
    pub fn join_random(&mut self, chan: u64, flags: &Vec<bool>) -> (r: JoinOutcome)
        requires
            dir_wf(old(self)@),
            flags@.len() == old(self)@.queue.len(),
        ensures
            dir_wf(final(self)@),
            match r {
                JoinOutcome::Queued { id } => first_open(flags@) == -1 && final(self)@
                    == join_transition(old(self)@, chan, flags@, id, 0),
                JoinOutcome::Paired { white, white_chan, black, game_id } => {
                    let k = first_open(flags@);
                    &&& k != -1
                    &&& white == old(self)@.queue[k].0
                    &&& white_chan == old(self)@.queue[k].1
                    &&& final(self)@ == join_transition(old(self)@, chan, flags@, black, game_id)
                },
            },
    {
        let ghost d0 = self@;
        let id = mint_identity();
        let picked = find_first_open(flags);
        if picked.is_none() {
            self.queue.clear();
            self.queue.push((id, chan));
            proof {
                assert(self@.queue =~= seq![(id, chan)]);
                assert(self@ =~= join_transition(d0, chan, flags@, id, 0));
            }
            return JoinOutcome::Queued { id };
        }
        let k = picked.unwrap();
        let qlen = self.queue.len();
        assert(k < qlen);
        let white_entry = self.queue[k];
        let mut drop_count: usize = 0;
        while drop_count <= k
            invariant
                drop_count <= k + 1,
                k < qlen,
                qlen == d0.queue.len(),
                self.queue@ == d0.queue.skip(drop_count as int),
                self@ == (DirModel { queue: d0.queue.skip(drop_count as int), ..d0 }),
            decreases k + 1 - drop_count,
        {
            let ghost before = self.queue@;
            self.queue.remove(0);
            drop_count = drop_count + 1;
            proof {
                assert(before.skip(1) =~= d0.queue.skip(drop_count as int));
                assert(self.queue@ =~= d0.queue.skip(drop_count as int));
            }
        }
        let gid = mint_identity();
        let entry = GameEntry {
            id: gid,
            white: white_entry.0,
            black: id,
            game: TicTacToe::default(),
        };
        proof {
            assert(entry@.game =~= initial_tic()) by {
                assert(entry@.game.boards =~= initial_tic().boards) by {
                    assert(forall|i: int| 0 <= i < 3 ==> #[trigger] entry@.game.boards[i]
                        =~= initial_tic().boards[i]);
                }
            }
        }
        self.games_put(gid, entry);
        assoc_put_exec(&mut self.game_ids, id, gid);
        assoc_put_exec(&mut self.game_ids, white_entry.0, gid);
        proof {
            assert(self@ =~= join_transition(d0, chan, flags@, id, gid));
            lemma_join_wf(d0, chan, flags@, id, gid);
        }
        JoinOutcome::Paired {
            white: white_entry.0,
            white_chan: white_entry.1,
            black: id,
            game_id: gid,
        }
    }
}

/// A well-formed directory stays well formed across a matchmaking join.
pub proof fn lemma_join_wf(d: DirModel, chan: u64, flags: Seq<bool>, id: u128, gid: u128)
    requires
        dir_wf(d),
        flags.len() == d.queue.len(),
    ensures
        dir_wf(join_transition(d, chan, flags, id, gid)),
{
    let k = first_open(flags);
    if k == -1 {
    } else {
        lemma_first_open(flags);
        let w = d.queue[k].0;
        let g = GameModel { id: gid, white: w, black: id, game: initial_tic() };
        let d2 = join_transition(d, chan, flags, id, gid);
        assert forall|x: u128| #[trigger] assoc_get(d2.game_ids, x) is Some implies assoc_get(
            d2.games,
            assoc_get(d2.game_ids, x)->0,
        ) is Some by {
            lemma_assoc_put(assoc_put(d.game_ids, id, gid), w, gid, x);
            lemma_assoc_put(d.game_ids, id, gid, x);
            let gid2 = assoc_get(d2.game_ids, x)->0;
            lemma_assoc_put(d.games, gid, g, gid2);
        }
        assert(dir_wf(d2)) by {
            assert(forall|i: int| 0 <= i < d2.games.len() ==> (#[trigger] d2.games[i]).1.id
                == d2.games[i].0) by {
                lemma_assoc_idx(d.games, gid);
            }
            assert(forall|i: int| 0 <= i < d2.games.len() ==> tic_wf(
                (#[trigger] d2.games[i]).1.game,
            )) by {
                lemma_assoc_idx(d.games, gid);
                assert(tic_wf(initial_tic())) by {
                    assert(forall|i: int| 0 <= i < 3 ==> (#[trigger] initial_tic().boards[i]).len()
                        == 3);
                    assert(forall|i: int, j: int|
                        0 <= i < 3 && 0 <= j < 3 ==> crate::board::board_wf(
                            #[trigger] initial_tic().boards[i][j],
                        ));
                }
            }
        }
    }
}

} // verus!

verus! {

/// A position whose code is `k`, with no earlier entry holding it, is where
/// the first lobby with that code sits.
pub proof fn lemma_lobby_idx_is(s: Seq<(Seq<char>, (u128, u64))>, k: Seq<char>, m: int)
    requires
        0 <= m < s.len(),
        s[m].0 == k,
        forall|i: int| 0 <= i < m ==> (#[trigger] s[i]).0 != k,
    ensures
        lobby_idx(s, k) == m,
    decreases s.len(),
{
    if m == 0 {
    } else {
        assert(s[0].0 != k);
        let t = s.skip(1);
        assert(forall|i: int| 0 <= i < t.len() ==> #[trigger] t[i] == s[i + 1]);
        lemma_lobby_idx_is(t, k, m - 1);
    }
}

/// When no entry holds code `k`, no lobby has it.
pub proof fn lemma_lobby_idx_none(s: Seq<(Seq<char>, (u128, u64))>, k: Seq<char>)
    requires
        forall|i: int| 0 <= i < s.len() ==> (#[trigger] s[i]).0 != k,
    ensures
        lobby_idx(s, k) == -1,
    decreases s.len(),
{
    if s.len() != 0 {
        let t = s.skip(1);
        assert(forall|i: int| 0 <= i < t.len() ==> #[trigger] t[i] == s[i + 1]);
        lemma_lobby_idx_none(t, k);
    }
}

/// Pairing two identities into a fresh game keeps the directory consistent.
pub proof fn lemma_pair_wf(d: DirModel, d2: DirModel, w: u128, b: u128, gid: u128)
    requires
        dir_wf(d),
        d2.game_ids == assoc_put(assoc_put(d.game_ids, b, gid), w, gid),
        d2.games == assoc_put(
            d.games,
            gid,
            GameModel { id: gid, white: w, black: b, game: initial_tic() },
        ),
    ensures
        dir_wf(d2),
{
    let g = GameModel { id: gid, white: w, black: b, game: initial_tic() };
    assert forall|x: u128| #[trigger] assoc_get(d2.game_ids, x) is Some implies assoc_get(
        d2.games,
        assoc_get(d2.game_ids, x)->0,
    ) is Some by {
        lemma_assoc_put(assoc_put(d.game_ids, b, gid), w, gid, x);
        lemma_assoc_put(d.game_ids, b, gid, x);
        let gid2 = assoc_get(d2.game_ids, x)->0;
        lemma_assoc_put(d.games, gid, g, gid2);
    }
    assert(tic_wf(initial_tic())) by {
        assert(forall|i: int| 0 <= i < 3 ==> (#[trigger] initial_tic().boards[i]).len() == 3);
        assert(forall|i: int, j: int|
            0 <= i < 3 && 0 <= j < 3 ==> crate::board::board_wf(
                #[trigger] initial_tic().boards[i][j],
            ));
    }
    lemma_assoc_idx(d.games, gid);
}

/// One board of a pushed game snapshot: its FEN text and its outcome tag.
#[derive(Debug)]
pub struct BoardMessage {
    pub fen: String,
    pub end: EndResult,
}

/// One pushed game snapshot: the nine boards, the color to move, the last
/// move played as "index move", and the recipient's own color.
#[derive(Debug)]
pub struct Snapshot {
    pub boards: Vec<BoardMessage>,
    pub next: Color,
    pub last_move: String,
    pub color: Color,
}

/// Everything a successful move must push: both players, their channels if
/// they subscribed, and each player's copy of the snapshot.
#[derive(Debug)]
pub struct MoveBroadcast {
    pub white: u128,
    pub black: u128,
    pub white_chan: Option<u64>,
    pub black_chan: Option<u64>,
    pub white_view: Snapshot,
    pub black_view: Snapshot,
}

/// Builds one snapshot of a game; when `actual_end` is clear every board is
/// reported as still open, as the subscription path does.
#[verifier::loop_isolation(false)]
fn make_snapshot(game: &TicTacToe, actual_end: bool, last_move: String, color: Color) -> (r:
    Snapshot)
    requires
        tic_wf(game@),
    ensures
        r.boards@.len() == 9,
        forall|k: int|
            0 <= k < 9 ==> (#[trigger] r.boards@[k]).fen@ == crate::fen::fen_str(
                game@.boards[k / 3][k % 3],
                game@.next,
            ) && r.boards@[k].end == (if actual_end {
                game@.boards[k / 3][k % 3].end
            } else {
                EndResult::Undecided(true)
            }),
        r.next == game@.next,
        r.last_move == last_move,
        r.color == color,
{
    let mut boards: Vec<BoardMessage> = Vec::new();
    let mut k: usize = 0;
    while k < 9
        invariant
            k <= 9,
            boards@.len() == k,
            forall|x: int|
                0 <= x < k ==> (#[trigger] boards@[x]).fen@ == crate::fen::fen_str(
                    game@.boards[x / 3][x % 3],
                    game@.next,
                ) && boards@[x].end == (if actual_end {
                    game@.boards[x / 3][x % 3].end
                } else {
                    EndResult::Undecided(true)
                }),
        decreases 9 - k,
    {
        let i = k / 3;
        let j = k % 3;
        proof {
            assert(i < 3 && j < 3);
            assert(game@.boards[i as int].len() == 3);
            assert(game@.boards[i as int] == game.chesses@[i as int]@.map_values(
                |bb: crate::board::ChessBoard| bb@,
            ));
        }
        let row = &game.chesses[i];
        let b = &row[j];
        proof {
            assert(b@ == game@.boards[k as int / 3][k as int % 3]);
            assert(crate::board::board_wf(b@));
        }
        let fen = match b.to_fen(game.next) {
            Ok(f) => f,
            Err(_) => {
                proof {
                    assert(false);
                }
                unreached()
            },
        };
        let end = if actual_end {
            b.end
        } else {
            EndResult::Undecided(true)
        };
        boards.push(BoardMessage { fen, end });
        k = k + 1;
    }
    Snapshot { boards, next: game.next, last_move, color }
}

impl GameService {
    /// The first game keyed `k`, located in the directory's model.
    #[verifier::loop_isolation(false)]
    fn games_find(&self, k: u128) -> (r: Option<usize>)
        ensures
            r is Some <==> assoc_idx(self@.games, k) != -1,
            r matches Some(i) ==> i == assoc_idx(self@.games, k) && i < self.games@.len()
                && self.games@[i as int].0 == k,
    {
        let ghost m = self@.games;
        proof {
            lemma_assoc_idx(self.games@, k);
            if assoc_idx(self.games@, k) == -1 {
                assert(forall|i: int| 0 <= i < m.len() ==> (#[trigger] m[i]).0
                    == self.games@[i].0);
                lemma_assoc_idx_none(m, k);
            } else {
                let j = assoc_idx(self.games@, k);
                assert(m[j].0 == k);
                assert(forall|i: int| 0 <= i < j ==> (#[trigger] m[i]).0 == self.games@[i].0);
                lemma_assoc_idx_is(m, k, j);
            }
        }
        assoc_find(&self.games, k)
    }

    /// The channel an identity subscribed with, if any.
    fn receiver_of(&self, k: u128) -> (r: Option<u64>)
        ensures
            r == assoc_get(self@.receivers, k),
    {
        match assoc_find(&self.receivers, k) {
            Some(i) => Some(self.receivers[i].1),
            None => None,
        }
    }

    /// Creates a private lobby: mints the host's identity and, from a second
    /// independent draw, the short unguessable code, and registers the host
    /// and channel under the code.
    #[verifier::loop_isolation(false)]
    pub fn make_lobby(&mut self, chan: u64) -> (r: LobbyCreated)
        requires
            dir_wf(old(self)@),
        ensures
            dir_wf(final(self)@),
            final(self)@ == (DirModel {
                lobbies: lobby_put(old(self)@.lobbies, r.code@, (r.host, chan)),
                ..old(self)@
            }),
    {
        let ghost d0 = self@;
        let host = mint_identity();
        let code_seed = mint_identity();
        let bytes = identity_bytes(code_seed);
        let code = encode_code(&bytes);
        let ghost m = d0.lobbies;
        let mut i: usize = 0;
        let n = self.lobbies.len();
        while i < n
            invariant
                i <= n,
                n == self.lobbies@.len(),
                self@ == d0,
                forall|j: int| 0 <= j < i ==> (#[trigger] m[j]).0 != code@,
            decreases n - i,
        {
            let e = &self.lobbies[i];
            if e.0 == code {
                proof {
                    assert(m[i as int].0 == code@);
                    lemma_lobby_idx_is(m, code@, i as int);
                }
                let code_out = code.clone();
                self.lobbies.set(i, (code, (host, chan)));
                proof {
                    assert(self@.lobbies =~= m.update(i as int, (code@, (host, chan))));
                    assert(self@ =~= (DirModel {
                        lobbies: lobby_put(d0.lobbies, code@, (host, chan)),
                        ..d0
                    }));
                }
                return LobbyCreated { host, code: code_out };
            }
            proof {
                assert(m[i as int].0 != code@);
            }
            i = i + 1;
        }
        proof {
            lemma_lobby_idx_none(m, code@);
        }
        let code_out = code.clone();
        self.lobbies.push((code, (host, chan)));
        proof {
            assert(self@.lobbies =~= m.push((code@, (host, chan))));
            assert(self@ =~= (DirModel {
                lobbies: lobby_put(d0.lobbies, code@, (host, chan)),
                ..d0
            }));
        }
        LobbyCreated { host, code: code_out }
    }

    /// Joins a private lobby by its code: the entry is consumed, a host
    /// whose channel has closed is reported as missing, and otherwise the
    /// stored host plays White against the fresh caller as Black.
    #[verifier::loop_isolation(false)]
    pub fn join_lobby(&mut self, code: &str, chan: u64, host_open: bool) -> (r: Result<
        JoinOutcome,
        ServerError,
    >)
        requires
            dir_wf(old(self)@),
        ensures
            dir_wf(final(self)@),
            match r {
                Err(ServerError::NotFound) => {
                    let li = lobby_idx(old(self)@.lobbies, code@);
                    ||| (li == -1 && final(self)@ == old(self)@)
                    ||| (li != -1 && !host_open && final(self)@ == (DirModel {
                        lobbies: old(self)@.lobbies.remove(li),
                        ..old(self)@
                    }))
                },
                Ok(JoinOutcome::Paired { white, white_chan, black, game_id }) => {
                    let li = lobby_idx(old(self)@.lobbies, code@);
                    &&& li != -1
                    &&& host_open
                    &&& white == old(self)@.lobbies[li].1.0
                    &&& white_chan == old(self)@.lobbies[li].1.1
                    &&& final(self)@ == (DirModel {
                        lobbies: old(self)@.lobbies.remove(li),
                        game_ids: assoc_put(
                            assoc_put(old(self)@.game_ids, black, game_id),
                            white,
                            game_id,
                        ),
                        games: assoc_put(
                            old(self)@.games,
                            game_id,
                            GameModel {
                                id: game_id,
                                white,
                                black,
                                game: initial_tic(),
                            },
                        ),
                        ..old(self)@
                    })
                },
                _ => false,
            },
    {
        let ghost d0 = self@;
        let ghost m = d0.lobbies;
        let code_string = code.to_owned();
        let mut i: usize = 0;
        let n = self.lobbies.len();
        while i < n
            invariant
                i <= n,
                n == self.lobbies@.len(),
                self@ == d0,
                code_string@ == code@,
                forall|j: int| 0 <= j < i ==> (#[trigger] m[j]).0 != code@,
            decreases n - i,
        {
            let e = &self.lobbies[i];
            if e.0 == code_string {
                proof {
                    assert(m[i as int].0 == code@);
                    lemma_lobby_idx_is(m, code@, i as int);
                }
                let entry = self.lobbies.remove(i);
                proof {
                    assert(self@.lobbies =~= m.remove(i as int));
                }
                let host = entry.1.0;
                let host_chan = entry.1.1;
                if !host_open {
                    proof {
                        assert(self@ =~= (DirModel { lobbies: m.remove(i as int), ..d0 }));
                    }
                    return Err(ServerError::NotFound);
                }
                let black = mint_identity();
                let gid = mint_identity();
                let game_entry = GameEntry {
                    id: gid,
                    white: host,
                    black,
                    game: TicTacToe::default(),
                };
                proof {
                    assert(game_entry@.game =~= initial_tic()) by {
                        assert(forall|a: int| 0 <= a < 3 ==> #[trigger] game_entry@.game.boards[a]
                            =~= initial_tic().boards[a]);
                        assert(game_entry@.game.boards =~= initial_tic().boards);
                    }
                }
                self.games_put(gid, game_entry);
                assoc_put_exec(&mut self.game_ids, black, gid);
                assoc_put_exec(&mut self.game_ids, host, gid);
                proof {
                    assert(self@ =~= (DirModel {
                        lobbies: m.remove(i as int),
                        game_ids: assoc_put(assoc_put(d0.game_ids, black, gid), host, gid),
                        games: assoc_put(
                            d0.games,
                            gid,
                            GameModel { id: gid, white: host, black, game: initial_tic() },
                        ),
                        ..d0
                    }));
                    lemma_pair_wf(d0, self@, host, black, gid);
                }
                return Ok(JoinOutcome::Paired {
                    white: host,
                    white_chan: host_chan,
                    black,
                    game_id: gid,
                });
            }
            proof {
                assert(m[i as int].0 != code@);
            }
            i = i + 1;
        }
        proof {
            lemma_lobby_idx_none(m, code@);
        }
        Err(ServerError::NotFound)
    }

    /// Attaches a push channel for an identity already in a game and returns
    /// one immediate snapshot of that game, every board reported still open
    /// and no last move named; an identity in no game is refused.
    #[verifier::loop_isolation(false)]
    pub fn subscribe(&mut self, id: u128, chan: u64) -> (r: Result<Snapshot, ServerError>)
        requires
            dir_wf(old(self)@),
        ensures
            dir_wf(final(self)@),
            match r {
                Err(e) => e == ServerError::PermissionDenied(DenyReason::NotJoined) && assoc_get(
                    old(self)@.game_ids,
                    id,
                ) is None && final(self)@ == old(self)@,
                Ok(snap) => {
                    let gid = assoc_get(old(self)@.game_ids, id)->0;
                    let g = assoc_get(old(self)@.games, gid)->0;
                    &&& assoc_get(old(self)@.game_ids, id) is Some
                    &&& final(self)@ == (DirModel {
                        receivers: assoc_put(old(self)@.receivers, id, chan),
                        ..old(self)@
                    })
                    &&& snap.boards@.len() == 9
                    &&& forall|k: int|
                        0 <= k < 9 ==> (#[trigger] snap.boards@[k]).fen@ == crate::fen::fen_str(
                            g.game.boards[k / 3][k % 3],
                            g.game.next,
                        ) && snap.boards@[k].end == EndResult::Undecided(true)
                    &&& snap.next == g.game.next
                    &&& snap.last_move@.len() == 0
                    &&& snap.color == (if id == g.black {
                        Color::Black
                    } else {
                        Color::White
                    })
                },
            },
    {
        let ghost d0 = self@;
        let ix = match assoc_find(&self.game_ids, id) {
            Some(ix) => ix,
            None => {
                return Err(ServerError::PermissionDenied(DenyReason::NotJoined));
            },
        };
        let gid = self.game_ids[ix].1;
        proof {
            assert(assoc_get(d0.game_ids, id) == Some(gid));
        }
        let gx = match self.games_find(gid) {
            Some(gx) => gx,
            None => {
                proof {
                    assert(false);
                }
                unreached()
            },
        };
        let entry = &self.games[gx].1;
        proof {
            assert(entry@ == assoc_get(d0.games, gid)->0);
            assert(tic_wf(entry@.game));
        }
        let color = if id == entry.black {
            Color::Black
        } else {
            Color::White
        };
        let snap = make_snapshot(&entry.game, false, String::new(), color);
        assoc_put_exec(&mut self.receivers, id, chan);
        proof {
            assert(self@ =~= (DirModel {
                receivers: assoc_put(d0.receivers, id, chan),
                ..d0
            }));
        }
        Ok(snap)
    }

    /// Refuses a take-back: the protocol names the call but no game accepts
    /// one, whoever asks.
    pub fn take_back(&self, id: u128) -> (r: Result<(), ServerError>)
        ensures
            r == Err::<(), ServerError>(ServerError::PermissionDenied(DenyReason::NotJoined)),
    {
        let _present = assoc_find(&self.game_ids, id);
        Err(ServerError::PermissionDenied(DenyReason::NotJoined))
    }
}

} // verus!

verus! {

impl GameService {
    /// Plays one move for an identity: the identity must be in a game, must
    /// be one of its two players, and must hold the global turn; the board
    /// index addresses the grid as `(index / 3, index % 3)`. A rule-engine
    /// failure leaves every game untouched. On success the game advances and
    /// both players' snapshot copies are returned, each against the channel
    /// its player subscribed with, the last move named as "index move".
    #[verifier::loop_isolation(false)]
    #[verifier::rlimit(60)]
    pub fn move_game(&mut self, id: u128, board_index: usize, alg: &str) -> (r: Result<
        MoveBroadcast,
        ServerError,
    >)
        requires
            dir_wf(old(self)@),
        ensures
            dir_wf(final(self)@),
            ({
                let gid = assoc_get(old(self)@.game_ids, id)->0;
                let g = assoc_get(old(self)@.games, gid)->0;
                let row = board_index / 3;
                let col = board_index % 3;
                match r {
                    Err(ServerError::PermissionDenied(DenyReason::NotJoined)) => final(self)@
                        == old(self)@ && assoc_get(old(self)@.game_ids, id) is None,
                    Err(ServerError::PermissionDenied(DenyReason::NotInGame)) => final(self)@
                        == old(self)@ && assoc_get(old(self)@.game_ids, id) is Some && id
                        != g.white && id != g.black,
                    Err(ServerError::PermissionDenied(DenyReason::NotYourTurn)) => final(self)@
                        == old(self)@ && assoc_get(old(self)@.game_ids, id) is Some && (id
                        == g.white || id == g.black) && (if id == g.white {
                        Color::White
                    } else {
                        Color::Black
                    }) != g.game.next,
                    Err(ServerError::Engine(e)) => final(self)@ == old(self)@ && assoc_get(
                        old(self)@.game_ids,
                        id,
                    ) is Some && (id == g.white || id == g.black) && (if id == g.white {
                        Color::White
                    } else {
                        Color::Black
                    }) == g.game.next && ((e == GameError::Tic(
                        crate::types::TicError::InvalidCoords,
                    ) && (col > 2 || row > 2)) || (col <= 2 && row <= 2 && ({
                        let m = g.game.boards[col as int][row as int];
                        ||| (e == GameError::Chess(
                            crate::types::ChessError::FenError(
                                crate::types::FenError::InvalidFormat,
                            ),
                        ) && !crate::moves::grammar_ok(alg@))
                        ||| (e == GameError::Chess(
                            crate::types::ChessError::MoveError(
                                crate::types::MoveError::GameOver,
                            ),
                        ) && crate::moves::grammar_ok(alg@) && m.end != EndResult::Undecided(
                            true,
                        ))
                        ||| (e == GameError::Chess(
                            crate::types::ChessError::MoveError(
                                crate::types::MoveError::InvalidMove,
                            ),
                        ) && crate::moves::grammar_ok(alg@) && m.end == EndResult::Undecided(true)
                            && !crate::rules::valid_move(m, alg@, g.game.next))
                    }))),
                    Err(_) => false,
                    Ok(bc) => {
                        let updated = TicModel {
                            boards: g.game.boards.update(
                                col as int,
                                g.game.boards[col as int].update(
                                    row as int,
                                    crate::rules::apply_move(
                                        g.game.boards[col as int][row as int],
                                        alg@,
                                        g.game.next,
                                    ),
                                ),
                            ),
                            next: crate::types::other_color(g.game.next),
                        };
                        &&& assoc_get(old(self)@.game_ids, id) is Some
                        &&& (id == g.white || id == g.black)
                        &&& (if id == g.white {
                            Color::White
                        } else {
                            Color::Black
                        }) == g.game.next
                        &&& col <= 2 && row <= 2
                        &&& crate::moves::grammar_ok(alg@)
                        &&& g.game.boards[col as int][row as int].end == EndResult::Undecided(
                            true,
                        )
                        &&& crate::rules::valid_move(
                            g.game.boards[col as int][row as int],
                            alg@,
                            g.game.next,
                        )
                        &&& final(self)@ == (DirModel {
                            games: assoc_put(
                                old(self)@.games,
                                gid,
                                GameModel { id: g.id, white: g.white, black: g.black, game: updated },
                            ),
                            ..old(self)@
                        })
                        &&& bc.white == g.white && bc.black == g.black
                        &&& bc.white_chan == assoc_get(old(self)@.receivers, g.white)
                        &&& bc.black_chan == assoc_get(old(self)@.receivers, g.black)
                        &&& bc.white_view.color == Color::White
                        &&& bc.black_view.color == Color::Black
                        &&& bc.white_view.next == updated.next && bc.black_view.next
                            == updated.next
                        &&& bc.white_view.last_move@ == crate::text::dec_str(board_index as int)
                            + seq![' '] + alg@
                        &&& bc.black_view.last_move@ == crate::text::dec_str(board_index as int)
                            + seq![' '] + alg@
                        &&& bc.white_view.boards@.len() == 9 && bc.black_view.boards@.len() == 9
                        &&& forall|k: int|
                            0 <= k < 9 ==> (#[trigger] bc.white_view.boards@[k]).fen@
                                == crate::fen::fen_str(
                                updated.boards[k / 3][k % 3],
                                updated.next,
                            ) && bc.white_view.boards@[k].end == updated.boards[k / 3][k % 3].end
                        &&& forall|k: int|
                            0 <= k < 9 ==> (#[trigger] bc.black_view.boards@[k]).fen@
                                == crate::fen::fen_str(
                                updated.boards[k / 3][k % 3],
                                updated.next,
                            ) && bc.black_view.boards@[k].end == updated.boards[k / 3][k % 3].end
                    },
                }
            }),
    {
        let ghost d0 = self@;
        let ix = match assoc_find(&self.game_ids, id) {
            Some(ix) => ix,
            None => {
                return Err(ServerError::PermissionDenied(DenyReason::NotJoined));
            },
        };
        let gid = self.game_ids[ix].1;
        proof {
            assert(assoc_get(d0.game_ids, id) == Some(gid));
        }
        let gx = match self.games_find(gid) {
            Some(gx) => gx,
            None => {
                proof {
                    assert(false);
                }
                unreached()
            },
        };
        let ghost g = assoc_get(d0.games, gid)->0;
        let white = self.games[gx].1.white;
        let black = self.games[gx].1.black;
        proof {
            assert(self.games@[gx as int].1@ == g);
        }
        let color = if id == white {
            Color::White
        } else if id == black {
            Color::Black
        } else {
            return Err(ServerError::PermissionDenied(DenyReason::NotInGame));
        };
        let next = self.games[gx].1.game.next;
        proof {
            assert(next == g.game.next);
        }
        if !(color == next) {
            return Err(ServerError::PermissionDenied(DenyReason::NotYourTurn));
        }
        let coords = Coordinates::new((board_index / 3, board_index % 3));
        let ghost rawgames = self.games@;
        let mut pair = self.games.remove(gx);
        proof {
            assert(pair == rawgames[gx as int]);
            assert(pair.1@ == g);
            assert(tic_wf(pair.1.game@));
        }
        let res = pair.1.game.make_move(coords, alg);
        match res {
            Err(e) => {
                self.games.insert(gx, pair);
                proof {
                    assert(self.games@ =~= rawgames.update(gx as int, self.games@[gx as int]));
                    assert(self@.games =~= d0.games);
                    assert(self@ =~= d0);
                }
                Err(ServerError::Engine(e))
            },
            Ok(()) => {
                let ghost updated_game = pair.1.game@;
                let mut lm: Vec<char> = crate::text::usize_to_chars(board_index);
                lm.push(' ');
                let mut alg_chars = crate::text::str_to_chars(alg);
                lm.append(&mut alg_chars);
                proof {
                    assert(lm@ =~= crate::text::dec_str(board_index as int) + seq![' '] + alg@);
                }
                let lm_white = crate::text::chars_to_string(&lm);
                let lm_black = crate::text::chars_to_string(&lm);
                let white_view = make_snapshot(&pair.1.game, true, lm_white, Color::White);
                let black_view = make_snapshot(&pair.1.game, true, lm_black, Color::Black);
                let white_chan = self.receiver_of(white);
                let black_chan = self.receiver_of(black);
                self.games.insert(gx, pair);
                proof {
                    let newg = GameModel { id: g.id, white: g.white, black: g.black, game: updated_game };
                    assert(self.games@ =~= rawgames.update(gx as int, self.games@[gx as int]));
                    assert(self@.games =~= d0.games.update(gx as int, (gid, newg)));
                    assert(assoc_idx(d0.games, gid) == gx);
                    assert(self@.games =~= assoc_put(d0.games, gid, newg));
                    assert(self@ =~= (DirModel {
                        games: assoc_put(d0.games, gid, newg),
                        ..d0
                    }));
                    assert(dir_wf(self@)) by {
                        assert forall|x: u128| #[trigger] assoc_get(self@.game_ids, x) is Some
                            implies assoc_get(
                            self@.games,
                            assoc_get(self@.game_ids, x)->0,
                        ) is Some by {
                            lemma_assoc_put(d0.games, gid, newg, assoc_get(d0.game_ids, x)->0);
                        }
                        assert(forall|i: int|
                            0 <= i < self@.games.len() ==> (#[trigger] self@.games[i]).1.id
                                == self@.games[i].0);
                        assert(forall|i: int|
                            0 <= i < self@.games.len() ==> tic_wf(
                                (#[trigger] self@.games[i]).1.game,
                            ));
                    }
                }
                Ok(MoveBroadcast { white, black, white_chan, black_chan, white_view, black_view })
            },
        }
    }
}

/// Two sequential matchmaking joins pair with each other: the first joiner
/// queues; the second, finding the first's channel open, is paired as Black
/// against the first as White, and both identities are recorded under one
/// fresh game that starts at the initial position. The emptied queue then
/// treats a third joiner exactly as it treated the first.
pub proof fn lemma_two_joins_pair(
    d0: DirModel,
    chan1: u64,
    chan2: u64,
    id1: u128,
    id2: u128,
    gid: u128,
)
    requires
        d0.queue.len() == 0,
    ensures
        ({
            let d1 = join_transition(d0, chan1, Seq::<bool>::empty(), id1, 0);
            &&& d1.queue == seq![(id1, chan1)]
            &&& {
                let d2 = join_transition(d1, chan2, seq![true], id2, gid);
                &&& d2.queue.len() == 0
                &&& assoc_get(d2.game_ids, id1) == Some(gid)
                &&& assoc_get(d2.game_ids, id2) == Some(gid)
                &&& match assoc_get(d2.games, gid) {
                    Some(g) => g.white == id1 && g.black == id2 && g.game == initial_tic(),
                    None => false,
                }
            }
        }),
{
    let d1 = join_transition(d0, chan1, Seq::<bool>::empty(), id1, 0);
    assert(first_open(Seq::<bool>::empty()) == -1);
    let flags = seq![true];
    assert(flags[0]);
    assert(first_open(flags) == 0);
    let d2 = join_transition(d1, chan2, flags, id2, gid);
    assert(d1.queue[0].0 == id1);
    assert(d2.queue =~= d1.queue.skip(1));
    assert(d2.queue.len() == 0);
    let g = GameModel { id: gid, white: id1, black: id2, game: initial_tic() };
    lemma_assoc_put(assoc_put(d1.game_ids, id2, gid), id1, gid, id1);
    lemma_assoc_put(assoc_put(d1.game_ids, id2, gid), id1, gid, id2);
    lemma_assoc_put(d1.game_ids, id2, gid, id2);
    lemma_assoc_put(d1.games, gid, g, gid);
}

} // verus!

verus! {

/// The outward server type the RPC layer wraps; it carries no state of its
/// own, the directory does.
#[derive(Debug, Default)]
pub struct ChessServer {}

/// Plays one move against a meta-game carried as text: the text is read, the
/// addressed board checked against the grid, the mover checked against the
/// global turn, and the move executed; the advanced meta-game is returned.
pub fn make_move(tic: String, board: (usize, usize), alg: &str, mover: Color) -> (r: Result<
    TicTacToe,
    GameError,
>)
    ensures
        ({
            let parsed = crate::tictactoe::parse_meta_spec(tic@);
            match parsed {
                Err(e) => r == Err::<TicTacToe, GameError>(
                    GameError::Chess(crate::types::ChessError::FenError(e)),
                ),
                Ok(t0) => {
                    if board.0 > 2 || board.1 > 2 {
                        r == Err::<TicTacToe, GameError>(
                            GameError::Tic(crate::types::TicError::InvalidCoords),
                        )
                    } else if t0.next != mover {
                        r == Err::<TicTacToe, GameError>(
                            GameError::Tic(crate::types::TicError::WrongColor),
                        )
                    } else {
                        match r {
                            Ok(t2) => crate::moves::grammar_ok(alg@)
                                && t0.boards[board.0 as int][board.1 as int].end
                                == EndResult::Undecided(true) && crate::rules::valid_move(
                                t0.boards[board.0 as int][board.1 as int],
                                alg@,
                                t0.next,
                            ) && t2@.next == crate::types::other_color(t0.next) && t2@.boards
                                == t0.boards.update(
                                board.0 as int,
                                t0.boards[board.0 as int].update(
                                    board.1 as int,
                                    crate::rules::apply_move(
                                        t0.boards[board.0 as int][board.1 as int],
                                        alg@,
                                        t0.next,
                                    ),
                                ),
                            ),
                            Err(GameError::Chess(e)) => {
                                let m = t0.boards[board.0 as int][board.1 as int];
                                ||| (e == crate::types::ChessError::FenError(
                                    crate::types::FenError::InvalidFormat,
                                ) && !crate::moves::grammar_ok(alg@))
                                ||| (e == crate::types::ChessError::MoveError(
                                    crate::types::MoveError::GameOver,
                                ) && crate::moves::grammar_ok(alg@) && m.end
                                    != EndResult::Undecided(true))
                                ||| (e == crate::types::ChessError::MoveError(
                                    crate::types::MoveError::InvalidMove,
                                ) && crate::moves::grammar_ok(alg@) && m.end
                                    == EndResult::Undecided(true) && !crate::rules::valid_move(
                                    m,
                                    alg@,
                                    t0.next,
                                ))
                            },
                            Err(_) => false,
                        }
                    }
                },
            }
        }),
{
    let mut parsed = match TicTacToe::from_fen(tic.as_str()) {
        Ok(t) => t,
        Err(e) => {
            return Err(GameError::Chess(crate::types::ChessError::FenError(e)));
        },
    };
    if board.0 > 2 || board.1 > 2 {
        return Err(GameError::Tic(crate::types::TicError::InvalidCoords));
    }
    if !(parsed.next == mover) {
        return Err(GameError::Tic(crate::types::TicError::WrongColor));
    }
    let coords = Coordinates { row: board.1, col: board.0 };
    match parsed.make_move(coords, alg) {
        Ok(()) => Ok(parsed),
        Err(e) => Err(e),
    }
}

} // verus!
