//! The race model: camels, markers and the rules for moving a stack of camels.

use vstd::prelude::*;

verus! {

/// The camels that race in the game.
#[derive(PartialEq, Eq, Structural, Hash, Copy, Clone, Debug)]
pub enum Camel {
    /// The red camel.
    Red,
    /// The orange camel.
    Orange,
    /// The yellow camel.
    Yellow,
    /// The green camel.
    Green,
    /// The white camel.
    White,
}

/// A marker is one symbol in the description of a race.
#[derive(PartialEq, Eq, Structural, Copy, Clone, Debug)]
pub enum Marker {
    /// A camel is present at this position; the argument tells which one.
    Camel(Camel),
    /// Divider between positions.
    Divider,
    /// Camels that land on an oasis advance one position.
    Oasis,
    /// Camels that land on a fata morgana fall back one position.
    FataMorgana,
}

impl Marker {
    /// Does this marker place a camel on the track?
    pub fn is_a_camel(self) -> (r: bool)
        ensures
            r == self is Camel,
    {
        match self {
            Marker::Camel(_) => true,
            _ => false,
        }
    }

    /// Is this marker a boundary between two positions?
    pub fn is_a_divider(self) -> (r: bool)
        ensures
            r == self is Divider,
    {
        match self {
            Marker::Divider => true,
            _ => false,
        }
    }

    /// Is this marker an oasis?
    pub fn is_an_oasis(self) -> (r: bool)
        ensures
            r == self is Oasis,
    {
        match self {
            Marker::Oasis => true,
            _ => false,
        }
    }

    /// Is this marker a fata morgana?
    pub fn is_a_fata_morgana(self) -> (r: bool)
        ensures
            r == self is FataMorgana,
    {
        match self {
            Marker::FataMorgana => true,
            _ => false,
        }
    }

    /// Is this marker one of the two adjustment markers?
    pub fn is_an_adjustment(self) -> (r: bool)
        ensures
            r == (self is Oasis || self is FataMorgana),
    {
        self.is_an_oasis() || self.is_a_fata_morgana()
    }

    /// The camel placed by this marker, if any.
    pub fn to_camel(self) -> (r: Option<Camel>)
        ensures
            r == (match self {
                Marker::Camel(camel) => Some(camel),
                _ => None::<Camel>,
            }),
    {
        match self {
            Marker::Camel(camel) => Some(camel),
            _ => None,
        }
    }
}

/// The characters that denote a marker in the textual encoding of a race.
pub open spec fn is_marker_char(c: char) -> bool {
    c == 'r' || c == 'o' || c == 'y' || c == 'g' || c == 'w' || c == ',' || c == '+' || c == '-'
}

/// The marker a character stands for; meaningful only for marker characters.
pub open spec fn marker_of_char(c: char) -> Marker {
    if c == 'r' {
        Marker::Camel(Camel::Red)
    } else if c == 'o' {
        Marker::Camel(Camel::Orange)
    } else if c == 'y' {
        Marker::Camel(Camel::Yellow)
    } else if c == 'g' {
        Marker::Camel(Camel::Green)
    } else if c == 'w' {
        Marker::Camel(Camel::White)
    } else if c == '+' {
        Marker::Oasis
    } else if c == '-' {
        Marker::FataMorgana
    } else {
        Marker::Divider
    }
}

/// The marker sequence a sequence of characters stands for.
pub open spec fn markers_of(cs: Seq<char>) -> Seq<Marker> {
    cs.map_values(|c: char| marker_of_char(c))
}

/// Does every character of the sequence denote a marker?
pub open spec fn all_marker_chars(cs: Seq<char>) -> bool {
    forall|i: int| 0 <= i < cs.len() ==> is_marker_char(cs[i])
}

/// Index of the first character that does not denote a marker; meaningful
/// only when there is one.
pub open spec fn first_bad_index(cs: Seq<char>) -> int
    decreases cs.len(),
{
    if cs.len() == 0 {
        0
    } else if !is_marker_char(cs[0]) {
        0
    } else {
        1 + first_bad_index(cs.skip(1))
    }
}

proof fn lemma_first_bad_index_is(cs: Seq<char>, i: int)
    requires
        0 <= i < cs.len(),
        !is_marker_char(cs[i]),
        forall|j: int| 0 <= j < i ==> is_marker_char(cs[j]),
    ensures
        !all_marker_chars(cs),
        first_bad_index(cs) == i,
    decreases i,
{
    if i == 0 {
    } else {
        let t = cs.skip(1);
        assert(forall|k: int| 0 <= k < t.len() ==> t[k] == cs[k + 1]);
        assert(!is_marker_char(t[i - 1]));
        lemma_first_bad_index_is(t, i - 1);
        assert(is_marker_char(cs[0]));
    }
}

/// Is the marker one of the two adjustment markers?
pub open spec fn is_adjustment(m: Marker) -> bool {
    m is Oasis || m is FataMorgana
}

/// Does a camel marker stand directly beside an oasis?
pub open spec fn camel_beside_oasis(m: Seq<Marker>) -> bool {
    exists|i: int|
        #![trigger m[i]]
        0 <= i && i + 1 < m.len() && (m[i] is Camel && m[i + 1] is Oasis || m[i] is Oasis && m[i
            + 1] is Camel)
}

/// Does a camel marker stand directly beside a fata morgana?
pub open spec fn camel_beside_fata_morgana(m: Seq<Marker>) -> bool {
    exists|i: int|
        #![trigger m[i]]
        0 <= i && i + 1 < m.len() && (m[i] is Camel && m[i + 1] is FataMorgana || m[
            i
        ] is FataMorgana && m[i + 1] is Camel)
}

/// Do two adjustment markers stand directly beside each other, i.e. share one
/// position?
pub open spec fn adjustments_share_position(m: Seq<Marker>) -> bool {
    exists|i: int| #![trigger m[i]] 0 <= i && i + 1 < m.len() && is_adjustment(m[i]) && is_adjustment(m[i + 1])
}

/// Do two adjustment markers stand two places apart, i.e. in consecutive
/// positions?
pub open spec fn adjustments_consecutive(m: Seq<Marker>) -> bool {
    exists|i: int| #![trigger m[i]] 0 <= i && i + 2 < m.len() && is_adjustment(m[i]) && is_adjustment(m[i + 2])
}

/// The camels placed by a sequence of markers, in track order.
///
/// Later camels are further ahead, or higher up within one stack.
pub open spec fn camels_of(s: Seq<Marker>) -> Seq<Camel>
    decreases s.len(),
{
    if s.len() == 0 {
        Seq::empty()
    } else {
        camels_of(s.drop_last()) + (match s.last() {
            Marker::Camel(camel) => seq![camel],
            _ => Seq::empty(),
        })
    }
}

/// Does the sequence place any camel at all?
pub open spec fn has_a_camel(s: Seq<Marker>) -> bool {
    exists|i: int| 0 <= i < s.len() && s[i] is Camel
}

/// Index of the first camel marker; meaningful only when a camel is present.
pub open spec fn first_camel_index(s: Seq<Marker>) -> int
    decreases s.len(),
{
    if s.len() == 0 {
        0
    } else if s[0] is Camel {
        0
    } else {
        1 + first_camel_index(s.skip(1))
    }
}

/// Index of the last camel marker; meaningful only when a camel is present.
pub open spec fn last_camel_index(s: Seq<Marker>) -> int
    decreases s.len(),
{
    if s.len() == 0 {
        -1
    } else if s.last() is Camel {
        s.len() - 1
    } else {
        last_camel_index(s.drop_last())
    }
}

/// A race description is kept in normal form: it spans exactly from the first
/// to the last camel marker, so it neither starts nor ends with a divider or
/// an adjustment marker. A sequence without camels normalizes to the empty
/// sequence.
pub open spec fn normalize(s: Seq<Marker>) -> Seq<Marker> {
    if has_a_camel(s) {
        s.subrange(first_camel_index(s), last_camel_index(s) + 1)
    } else {
        Seq::empty()
    }
}

/// `first_camel_index` returns exactly the position of the first camel marker.
proof fn lemma_first_camel_index(s: Seq<Marker>)
    requires
        has_a_camel(s),
    ensures
        0 <= first_camel_index(s) < s.len(),
        s[first_camel_index(s)] is Camel,
        forall|j: int| 0 <= j < first_camel_index(s) ==> !(s[j] is Camel),
    decreases s.len(),
{
    if s[0] is Camel {
    } else {
        let t = s.skip(1);
        assert(forall|i: int| 0 <= i < t.len() ==> t[i] == s[i + 1]);
        let w = choose|i: int| 0 <= i < s.len() && s[i] is Camel;
        assert(t[w - 1] is Camel);
        lemma_first_camel_index(t);
        assert(s[first_camel_index(s)] == t[first_camel_index(t)]);
        assert forall|j: int| 0 <= j < first_camel_index(s) implies !(s[j] is Camel) by {
            if j >= 1 {
                assert(!(t[j - 1] is Camel));
            }
        }
    }
}

/// Any position that holds a camel while everything before it does not is the
/// first camel position.
proof fn lemma_first_camel_index_is(s: Seq<Marker>, i: int)
    requires
        0 <= i < s.len(),
        s[i] is Camel,
        forall|j: int| 0 <= j < i ==> !(s[j] is Camel),
    ensures
        has_a_camel(s),
        first_camel_index(s) == i,
    decreases i,
{
    assert(s[i] is Camel);
    if i == 0 {
    } else {
        let t = s.skip(1);
        assert(forall|k: int| 0 <= k < t.len() ==> t[k] == s[k + 1]);
        assert(t[i - 1] is Camel);
        lemma_first_camel_index_is(t, i - 1);
        assert(!(s[0] is Camel));
    }
}

/// `last_camel_index` returns exactly the position of the last camel marker.
proof fn lemma_last_camel_index(s: Seq<Marker>)
    requires
        has_a_camel(s),
    ensures
        0 <= last_camel_index(s) < s.len(),
        s[last_camel_index(s)] is Camel,
        forall|j: int| last_camel_index(s) < j < s.len() ==> !(s[j] is Camel),
    decreases s.len(),
{
    if s.last() is Camel {
    } else {
        let t = s.drop_last();
        let w = choose|i: int| 0 <= i < s.len() && s[i] is Camel;
        assert(t[w] is Camel);
        lemma_last_camel_index(t);
        assert(s[last_camel_index(s)] == t[last_camel_index(t)]);
        assert forall|j: int| last_camel_index(s) < j < s.len() implies !(s[j] is Camel) by {
            if j < s.len() - 1 {
                assert(!(t[j] is Camel));
            }
        }
    }
}

/// Any position that holds a camel while everything after it does not is the
/// last camel position.
proof fn lemma_last_camel_index_is(s: Seq<Marker>, i: int)
    requires
        0 <= i < s.len(),
        s[i] is Camel,
        forall|j: int| i < j < s.len() ==> !(s[j] is Camel),
    ensures
        has_a_camel(s),
        last_camel_index(s) == i,
    decreases s.len(),
{
    assert(s[i] is Camel);
    if i == s.len() - 1 {
    } else {
        let t = s.drop_last();
        assert(t[i] is Camel);
        lemma_last_camel_index_is(t, i);
        assert(!(s.last() is Camel));
    }
}

/// The first camel marker never lies behind the last one.
proof fn lemma_camel_span(s: Seq<Marker>)
    requires
        has_a_camel(s),
    ensures
        0 <= first_camel_index(s) <= last_camel_index(s) < s.len(),
{
    lemma_first_camel_index(s);
    lemma_last_camel_index(s);
}

/// Normalization is idempotent: normalizing a sequence twice gives the same
/// result as normalizing it once.
pub proof fn lemma_normalize_idempotent(s: Seq<Marker>)
    ensures
        normalize(normalize(s)) == normalize(s),
{
    if has_a_camel(s) {
        lemma_first_camel_index(s);
        lemma_last_camel_index(s);
        lemma_camel_span(s);
        let first = first_camel_index(s);
        let last = last_camel_index(s);
        let t = s.subrange(first, last + 1);
        assert(t[0] == s[first]);
        assert(t.last() == s[last]);
        lemma_first_camel_index_is(t, 0);
        lemma_last_camel_index_is(t, t.len() - 1);
        assert(t.subrange(0, t.len() as int) =~= t);
    } else {
        assert(!has_a_camel(Seq::<Marker>::empty()));
        assert(normalize(s) =~= Seq::<Marker>::empty());
    }
}

/// Surrounding dividers do not matter: a marker sequence normalizes to the
/// same race after any number of dividers is put in front of it or behind
/// it.
pub proof fn lemma_normalize_ignores_surrounding_dividers(
    fore: Seq<Marker>,
    s: Seq<Marker>,
    aft: Seq<Marker>,
)
    requires
        forall|i: int| #![trigger fore[i]] 0 <= i < fore.len() ==> fore[i] is Divider,
        forall|i: int| #![trigger aft[i]] 0 <= i < aft.len() ==> aft[i] is Divider,
    ensures
        normalize(fore + s + aft) == normalize(s),
{
    let t = fore + s + aft;
    assert(forall|i: int| 0 <= i < s.len() ==> t[fore.len() + i] == s[i]);
    assert(forall|i: int| 0 <= i < fore.len() ==> t[i] == fore[i]);
    assert(forall|i: int|
        fore.len() + s.len() <= i < t.len() ==> t[i] == aft[i - fore.len() - s.len()]);
    if has_a_camel(s) {
        lemma_first_camel_index(s);
        lemma_last_camel_index(s);
        let first = first_camel_index(s);
        let last = last_camel_index(s);
        assert(t[fore.len() + first] is Camel);
        assert forall|j: int| 0 <= j < fore.len() + first implies !(t[j] is Camel) by {
            if j < fore.len() {
                assert(fore[j] is Divider);
            } else {
                assert(t[j] == s[j - fore.len()]);
            }
        }
        lemma_first_camel_index_is(t, fore.len() + first);
        assert(t[fore.len() + last] is Camel);
        assert forall|j: int| fore.len() + last < j < t.len() implies !(t[j] is Camel) by {
            if j < fore.len() + s.len() {
                assert(t[j] == s[j - fore.len()]);
            } else {
                assert(t[j] is Divider);
            }
        }
        lemma_last_camel_index_is(t, fore.len() + last);
        assert(t.subrange(fore.len() + first, fore.len() + last + 1) =~= s.subrange(
            first,
            last + 1,
        ));
    } else {
        assert forall|j: int| 0 <= j < t.len() implies !(t[j] is Camel) by {
            if j < fore.len() {
                assert(fore[j] is Divider);
            } else if j < fore.len() + s.len() {
                assert(t[j] == s[j - fore.len()]);
            } else {
                assert(t[j] is Divider);
            }
        }
        assert(!has_a_camel(t));
    }
}

/// Models a race as a sequence of markers.
///
/// A race is always kept in normal form: it spans exactly from the first to
/// the last camel marker, so leading and trailing dividers are stripped. A
/// race without any camel is the empty race.
#[derive(Eq, Debug)]
pub struct Race {
    positions: Vec<Marker>,
}

impl View for Race {
    type V = Seq<Marker>;

    closed spec fn view(&self) -> Seq<Marker> {
        self.positions@
    }
}

impl Race {
    /// The invariant every race maintains: its marker sequence is in normal
    /// form.
    #[verifier::type_invariant]
    pub open spec fn wf(self) -> bool {
        normalize(self@) == self@
    }

    /// Builds a race from a sequence of markers, normalizing it.
    pub fn from_markers(markers: Vec<Marker>) -> (r: Race)
        ensures
            r@ == normalize(markers@),
    {
        let ghost s = markers@;
        let n = markers.len();
        let mut first: usize = n;
        let mut last: usize = n;
        let mut i: usize = 0;
        while i < n
            invariant
                s == markers@,
                n == s.len(),
                i <= n,
                first <= n,
                last <= n,
                first == n <==> last == n,
                first == n ==> (forall|j: int| 0 <= j < i ==> !(s[j] is Camel)),
                first < n ==> first < i && s[first as int] is Camel,
                first < n ==> (forall|j: int| 0 <= j < first ==> !(s[j] is Camel)),
                last < n ==> last < i && s[last as int] is Camel,
                last < n ==> (forall|j: int| last < j < i ==> !(s[j] is Camel)),
                first <= last,
            decreases n - i,
        {
            if markers[i].is_a_camel() {
                if first == n {
                    first = i;
                }
                last = i;
            }
            i += 1;
        }
        if first == n {
            assert(!has_a_camel(s));
            Race { positions: Vec::new() }
        } else {
            proof {
                lemma_first_camel_index_is(s, first as int);
                lemma_last_camel_index_is(s, last as int);
            }
            let mut positions: Vec<Marker> = Vec::new();
            let mut j: usize = first;
            while j <= last
                invariant
                    s == markers@,
                    n == s.len(),
                    first <= j <= last + 1,
                    last < n,
                    positions@ =~= s.subrange(first as int, j as int),
                decreases last + 1 - j,
            {
                positions.push(markers[j]);
                j += 1;
            }
            proof {
                lemma_normalize_idempotent(s);
            }
            Race { positions }
        }
    }
}

impl Clone for Race {
    /// A cloned race describes exactly the same marker sequence.
    fn clone(&self) -> (r: Self)
        ensures
            r@ == self@,
    {
        let mut positions: Vec<Marker> = Vec::new();
        let mut i: usize = 0;
        while i < self.positions.len()
            invariant
                i <= self.positions.len(),
                positions@ =~= self.positions@.subrange(0, i as int),
            decreases self.positions.len() - i,
        {
            positions.push(self.positions[i]);
            i += 1;
        }
        proof {
            use_type_invariant(self);
            assert(positions@ =~= self@);
        }
        Race { positions }
    }
}

impl PartialEq for Race {
    /// Two races are equal exactly when their marker sequences are equal.
    fn eq(&self, other: &Race) -> (r: bool)
    {
        if self.positions.len() != other.positions.len() {
            return false;
        }
        let mut i: usize = 0;
        while i < self.positions.len()
            invariant
                self.positions@.len() == other.positions@.len(),
                i <= self.positions@.len(),
                forall|j: int| 0 <= j < i ==> self.positions@[j] == other.positions@[j],
            decreases self.positions.len() - i,
        {
            if self.positions[i] != other.positions[i] {
                return false;
            }
            i += 1;
        }
        proof {
            assert(self.positions@ =~= other.positions@);
        }
        true
    }
}

impl vstd::std_specs::cmp::PartialEqSpecImpl for Race {
    open spec fn obeys_eq_spec() -> bool {
        true
    }

    open spec fn eq_spec(&self, other: &Race) -> bool {
        self@ == other@
    }
}

/// The camel at the front of the race, if any: the last camel marker.
pub open spec fn spec_winner(s: Seq<Marker>) -> Option<Camel> {
    let racers = camels_of(s);
    if racers.len() >= 1 {
        Some(racers.last())
    } else {
        None
    }
}

/// The camel right behind the winner, if the race has at least two camels.
pub open spec fn spec_runner_up(s: Seq<Marker>) -> Option<Camel> {
    let racers = camels_of(s);
    if racers.len() >= 2 {
        Some(racers[racers.len() - 2])
    } else {
        None
    }
}

/// The camel at the back of the race: the first camel marker. A race needs at
/// least two camels before one of them can be behind the others.
pub open spec fn spec_loser(s: Seq<Marker>) -> Option<Camel> {
    let racers = camels_of(s);
    if racers.len() >= 2 {
        Some(racers[0])
    } else {
        None
    }
}

/// Winner, runner up and loser are pairwise distinct camels whenever all
/// three are defined, provided no camel occurs twice in the race. Three
/// defined ranks need at least three camels: with exactly two, the camel at
/// the back is the runner up and the loser at once.
pub proof fn lemma_ranking_exclusive(s: Seq<Marker>)
    requires
        camels_of(s).no_duplicates(),
        camels_of(s).len() >= 3,
    ensures
        spec_winner(s) != spec_runner_up(s),
        spec_winner(s) != spec_loser(s),
        spec_runner_up(s) != spec_loser(s),
{
    let racers = camels_of(s);
    assert(racers.last() == racers[racers.len() - 1]);
}

impl Race {
    /// The camels in the race, in track order: the last one is the most
    /// advanced and, within a stack, the highest.
    pub fn camel_list(&self) -> (r: Vec<Camel>)
        ensures
            r@ == camels_of(self@),
    {
        let mut racers: Vec<Camel> = Vec::new();
        let n = self.positions.len();
        let mut i: usize = 0;
        while i < n
            invariant
                n == self.positions@.len(),
                i <= n,
                racers@ == camels_of(self.positions@.subrange(0, i as int)),
            decreases n - i,
        {
            let ghost prefix = self.positions@.subrange(0, i as int);
            let ghost extended = self.positions@.subrange(0, i as int + 1);
            proof {
                assert(extended.drop_last() =~= prefix);
            }
            match self.positions[i].to_camel() {
                Some(camel) => {
                    racers.push(camel);
                }
                None => {},
            }
            i += 1;
        }
        proof {
            assert(self.positions@.subrange(0, n as int) =~= self.positions@);
        }
        racers
    }

    /// The ordered marker sequence describing this race.
    pub fn markers(&self) -> (r: Vec<Marker>)
        ensures
            r@ == self@,
    {
        let mut out: Vec<Marker> = Vec::new();
        let mut i: usize = 0;
        while i < self.positions.len()
            invariant
                i <= self.positions@.len(),
                out@ =~= self.positions@.subrange(0, i as int),
            decreases self.positions@.len() - i,
        {
            out.push(self.positions[i]);
            i += 1;
        }
        proof {
            assert(out@ =~= self@);
        }
        out
    }

    /// Determines which camel is the winner, i.e. is at the front.
    pub fn winner(&self) -> (r: Option<Camel>)
        ensures
            r == spec_winner(self@),
    {
        let racers = self.camel_list();
        if racers.len() >= 1 {
            Some(racers[racers.len() - 1])
        } else {
            None
        }
    }

    /// Determines which camel is the runner up, i.e. is right behind the
    /// winner.
    pub fn runner_up(&self) -> (r: Option<Camel>)
        ensures
            r == spec_runner_up(self@),
    {
        let racers = self.camel_list();
        if racers.len() >= 2 {
            Some(racers[racers.len() - 2])
        } else {
            None
        }
    }

    /// Determines which camel is the loser, i.e. is at the back.
    pub fn loser(&self) -> (r: Option<Camel>)
        ensures
            r == spec_loser(self@),
    {
        let racers = self.camel_list();
        if racers.len() >= 2 {
            Some(racers[0])
        } else {
            None
        }
    }
}

/// The faces of a camel die; each corresponds to a number of steps.
#[derive(PartialEq, Eq, Structural, Hash, Copy, Clone, Debug)]
pub enum Face {
    /// One step.
    One,
    /// Two steps.
    Two,
    /// Three steps.
    Three,
}

/// The number of steps a face lets a camel take.
pub open spec fn face_steps(face: Face) -> int {
    match face {
        Face::One => 1,
        Face::Two => 2,
        Face::Three => 3,
    }
}

impl Face {
    /// All the possible face values, in step order.
    pub fn values() -> (r: Vec<Face>)
        ensures
            r@ == seq![Face::One, Face::Two, Face::Three],
    {
        let mut faces: Vec<Face> = Vec::new();
        faces.push(Face::One);
        faces.push(Face::Two);
        faces.push(Face::Three);
        proof {
            assert(faces@ =~= seq![Face::One, Face::Two, Face::Three]);
        }
        faces
    }

    /// The number of steps this face lets a camel take.
    pub fn steps(self) -> (r: usize)
        ensures
            r == face_steps(self),
    {
        match self {
            Face::One => 1,
            Face::Two => 2,
            Face::Three => 3,
        }
    }
}

/// The slots of a track: the runs of markers between dividers, in order. A
/// track with `d` dividers has exactly `d + 1` slots, empty runs included.
pub open spec fn split_slots(s: Seq<Marker>) -> Seq<Seq<Marker>>
    decreases s.len(),
{
    if s.len() == 0 {
        seq![Seq::<Marker>::empty()]
    } else if s.last() is Divider {
        split_slots(s.drop_last()).push(Seq::empty())
    } else {
        let fore = split_slots(s.drop_last());
        fore.update(fore.len() - 1, fore.last().push(s.last()))
    }
}

/// Puts slots back together into one track, a divider between each two.
pub open spec fn join_slots(slots: Seq<Seq<Marker>>) -> Seq<Marker>
    decreases slots.len(),
{
    if slots.len() == 0 {
        Seq::empty()
    } else if slots.len() == 1 {
        slots[0]
    } else {
        join_slots(slots.drop_last()) + seq![Marker::Divider] + slots.last()
    }
}

/// How many dividers a track holds.
pub open spec fn count_dividers(s: Seq<Marker>) -> nat
    decreases s.len(),
{
    if s.len() == 0 {
        0
    } else {
        count_dividers(s.drop_last()) + (if s.last() is Divider {
            1nat
        } else {
            0nat
        })
    }
}

/// A track splits into one slot more than it has dividers.
pub proof fn lemma_split_slots_len(s: Seq<Marker>)
    ensures
        split_slots(s).len() == count_dividers(s) + 1,
    decreases s.len(),
{
    if s.len() == 0 {
    } else {
        lemma_split_slots_len(s.drop_last());
    }
}

/// Dividers are counted piecewise.
pub proof fn lemma_count_dividers_add(a: Seq<Marker>, b: Seq<Marker>)
    ensures
        count_dividers(a + b) == count_dividers(a) + count_dividers(b),
    decreases b.len(),
{
    if b.len() == 0 {
        assert(a + b =~= a);
    } else {
        assert((a + b).drop_last() =~= a + b.drop_last());
        assert((a + b).last() == b.last());
        lemma_count_dividers_add(a, b.drop_last());
    }
}

/// Index of the first marker placing the given camel; meaningful only when
/// the camel is present.
pub open spec fn camel_position(s: Seq<Marker>, camel: Camel) -> int
    decreases s.len(),
{
    if s.len() == 0 {
        0
    } else if s[0] == Marker::Camel(camel) {
        0
    } else {
        1 + camel_position(s.skip(1), camel)
    }
}

proof fn lemma_camel_position_is(s: Seq<Marker>, camel: Camel, i: int)
    requires
        0 <= i < s.len(),
        s[i] == Marker::Camel(camel),
        forall|j: int| 0 <= j < i ==> s[j] != Marker::Camel(camel),
    ensures
        s.contains(Marker::Camel(camel)),
        camel_position(s, camel) == i,
    decreases i,
{
    assert(s[i] == Marker::Camel(camel));
    if i == 0 {
    } else {
        let t = s.skip(1);
        assert(forall|k: int| 0 <= k < t.len() ==> t[k] == s[k + 1]);
        assert(t[i - 1] == Marker::Camel(camel));
        lemma_camel_position_is(t, camel, i - 1);
        assert(s[0] != Marker::Camel(camel));
    }
}

/// How many markers the moving stack holds: the length of the unbroken run of
/// camel markers that starts at the given index.
pub open spec fn camel_run_length(s: Seq<Marker>, i: int) -> int
    decreases s.len() - i,
{
    if i < 0 || i >= s.len() || !(s[i] is Camel) {
        0
    } else {
        1 + camel_run_length(s, i + 1)
    }
}

proof fn lemma_camel_run_length_is(s: Seq<Marker>, i: int, e: int)
    requires
        0 <= i <= e <= s.len(),
        forall|j: int| i <= j < e ==> s[j] is Camel,
        e == s.len() || !(s[e] is Camel),
    ensures
        camel_run_length(s, i) == e - i,
    decreases e - i,
{
    if i == e {
    } else {
        assert(s[i] is Camel);
        lemma_camel_run_length_is(s, i + 1, e);
    }
}

/// Where the moving stack ends up: the destination slot, and whether it goes
/// on top of the stack already there (`true`) or underneath it (`false`).
///
/// The slot the roll nominally reaches decides: an oasis there sends the stack
/// one slot further, on top; a fata morgana pulls it one slot back, to the
/// bottom; anything else lets it land right there, on top.
pub open spec fn landing(slots: Seq<Seq<Marker>>, nominal: int) -> (int, bool) {
    let slot = slots[nominal];
    if slot.len() > 0 && slot.last() is Oasis {
        (nominal + 1, true)
    } else if slot.len() > 0 && slot.last() is FataMorgana {
        (nominal - 1, false)
    } else {
        (nominal, true)
    }
}

/// The race that results from letting a camel take its steps.
///
/// A roll of an absent camel leaves the race as it stands, merely normalized.
/// Otherwise the unbroken run of camel markers starting at the rolled camel
/// (the camel and everything riding on it) is lifted out, the remaining track
/// is padded with dividers so that there is always room to move, and the run
/// is put back into the slot that `landing` picks, counted from the slot the
/// camel started in; the result is normalized again.
pub open spec fn spec_perform(s: Seq<Marker>, camel: Camel, steps: int) -> Seq<Marker> {
    if !s.contains(Marker::Camel(camel)) {
        normalize(s)
    } else {
        let i = camel_position(s, camel);
        let k = camel_run_length(s, i);
        let unit = s.subrange(i, i + k);
        let rest = s.subrange(0, i) + s.subrange(i + k, s.len() as int) + seq![
            Marker::Divider,
            Marker::Divider,
            Marker::Divider,
            Marker::Divider,
        ];
        let slots = split_slots(rest);
        let nominal = count_dividers(s.subrange(0, i)) + steps;
        let dest_top = landing(slots, nominal as int);
        let dest = dest_top.0;
        let moved = if dest_top.1 {
            slots[dest] + unit
        } else {
            unit + slots[dest]
        };
        normalize(join_slots(slots.update(dest, moved)))
    }
}

/// When parsing of a marker goes wrong, this tells you precisely what went
/// down.
#[derive(PartialEq, Debug)]
pub enum NotAMarker {
    /// It was not a marker, but something else. The argument tells you what it
    /// was.
    But(String),
}

/// When parsing of a race goes wrong, this tells you precisely what went down.
#[derive(PartialEq, Debug)]
pub enum RaceParseError {
    /// A race consists solely of markers, and this is not a marker.
    NotAMarker(NotAMarker),
    /// A camel can not be in an oasis.
    CamelInOasis,
    /// A camel can not be in a fata morgana.
    CamelInFataMorgana,
    /// Adjustments can not be in the same position.
    ToManyAdjustmentsInOnePosition,
    /// Adjustments can not be consecutive.
    ConsecutiveAdjustments,
}

impl Marker {
    /// The marker a single character stands for, if any.
    pub fn from_char(c: char) -> (r: Option<Marker>)
        ensures
            r == (if is_marker_char(c) {
                Some(marker_of_char(c))
            } else {
                None::<Marker>
            }),
    {
        match c {
            'r' => Some(Marker::Camel(Camel::Red)),
            'o' => Some(Marker::Camel(Camel::Orange)),
            'y' => Some(Marker::Camel(Camel::Yellow)),
            'g' => Some(Marker::Camel(Camel::Green)),
            'w' => Some(Marker::Camel(Camel::White)),
            ',' => Some(Marker::Divider),
            '+' => Some(Marker::Oasis),
            '-' => Some(Marker::FataMorgana),
            _ => None,
        }
    }
}

impl core::str::FromStr for Marker {
    type Err = NotAMarker;

    fn from_str(input: &str) -> Result<Marker, NotAMarker> {
        if input.unicode_len() == 1 {
            match Marker::from_char(input.get_char(0)) {
                Some(marker) => Ok(marker),
                None => Err(NotAMarker::But(input.to_owned())),
            }
        } else {
            Err(NotAMarker::But(input.to_owned()))
        }
    }
}

#[verifier::rlimit(30)]
fn find_camel_beside_oasis(markers: &Vec<Marker>) -> (r: bool)
    ensures
        r == camel_beside_oasis(markers@),
{
    let n = markers.len();
    let mut i: usize = 1;
    while i < n
        invariant
            n == markers@.len(),
            1 <= i,
            forall|j: int|
                #![trigger markers@[j]]
                0 <= j && j + 1 < i ==> !(markers@[j] is Camel && markers@[j + 1] is Oasis
                    || markers@[j] is Oasis && markers@[j + 1] is Camel),
        decreases n - i,
    {
        let left = markers[i - 1];
        let right = markers[i];
        if left.is_a_camel() && right.is_an_oasis() || left.is_an_oasis() && right.is_a_camel() {
            proof {
                assert(markers@[i - 1] is Camel && markers@[i as int] is Oasis || markers@[i
                    - 1] is Oasis && markers@[i as int] is Camel);
            }
            return true;
        }
        i += 1;
    }
    false
}

#[verifier::rlimit(30)]
fn find_camel_beside_fata_morgana(markers: &Vec<Marker>) -> (r: bool)
    ensures
        r == camel_beside_fata_morgana(markers@),
{
    let n = markers.len();
    let mut i: usize = 1;
    while i < n
        invariant
            n == markers@.len(),
            1 <= i,
            forall|j: int|
                #![trigger markers@[j]]
                0 <= j && j + 1 < i ==> !(markers@[j] is Camel && markers@[j
                    + 1] is FataMorgana || markers@[j] is FataMorgana && markers@[j + 1] is Camel),
        decreases n - i,
    {
        let left = markers[i - 1];
        let right = markers[i];
        if left.is_a_camel() && right.is_a_fata_morgana() || left.is_a_fata_morgana()
            && right.is_a_camel() {
            proof {
                assert(markers@[i - 1] is Camel && markers@[i as int] is FataMorgana || markers@[i
                    - 1] is FataMorgana && markers@[i as int] is Camel);
            }
            return true;
        }
        i += 1;
    }
    false
}

#[verifier::rlimit(30)]
fn find_adjustments_sharing_position(markers: &Vec<Marker>) -> (r: bool)
    ensures
        r == adjustments_share_position(markers@),
{
    let n = markers.len();
    let mut i: usize = 1;
    while i < n
        invariant
            n == markers@.len(),
            1 <= i,
            forall|j: int|
                #![trigger markers@[j]]
                0 <= j && j + 1 < i ==> !(is_adjustment(markers@[j]) && is_adjustment(
                    markers@[j + 1],
                )),
        decreases n - i,
    {
        if markers[i - 1].is_an_adjustment() && markers[i].is_an_adjustment() {
            proof {
                assert(is_adjustment(markers@[i - 1]) && is_adjustment(markers@[i as int]));
            }
            return true;
        }
        i += 1;
    }
    false
}

#[verifier::rlimit(30)]
fn find_consecutive_adjustments(markers: &Vec<Marker>) -> (r: bool)
    ensures
        r == adjustments_consecutive(markers@),
{
    let n = markers.len();
    let mut i: usize = 2;
    while i < n
        invariant
            n == markers@.len(),
            2 <= i,
            forall|j: int|
                #![trigger markers@[j]]
                0 <= j && j + 2 < i ==> !(is_adjustment(markers@[j]) && is_adjustment(
                    markers@[j + 2],
                )),
        decreases n - i,
    {
        if markers[i - 2].is_an_adjustment() && markers[i].is_an_adjustment() {
            proof {
                assert(is_adjustment(markers@[i - 2]) && is_adjustment(markers@[i as int]));
            }
            return true;
        }
        i += 1;
    }
    false
}

impl Race {
    /// Parses the textual encoding of a race.
    ///
    /// Every character must denote a marker; the marker sequence must respect
    /// the placement rules for adjustment markers; the resulting race is the
    /// normalized marker sequence. The first violated rule, checked in the
    /// order below, names the error.
    #[verifier::rlimit(60)]
    pub fn parse(input: &str) -> (r: Result<Race, RaceParseError>)
        ensures
            ({
                let cs = input@;
                let ms = markers_of(cs);
                &&& (r is Ok <==> all_marker_chars(cs) && !camel_beside_oasis(ms)
                    && !camel_beside_fata_morgana(ms) && !adjustments_share_position(ms)
                    && !adjustments_consecutive(ms))
                &&& (r matches Ok(race) ==> race@ == normalize(ms))
                &&& (!all_marker_chars(cs) ==> (r matches Err(
                    RaceParseError::NotAMarker(NotAMarker::But(token)),
                ) && token@ == seq![cs[first_bad_index(cs)]]))
                &&& (all_marker_chars(cs) && camel_beside_oasis(ms) ==> r == Err::<
                    Race,
                    RaceParseError,
                >(RaceParseError::CamelInOasis))
                &&& (all_marker_chars(cs) && !camel_beside_oasis(ms) && camel_beside_fata_morgana(
                    ms,
                ) ==> r == Err::<Race, RaceParseError>(RaceParseError::CamelInFataMorgana))
                &&& (all_marker_chars(cs) && !camel_beside_oasis(ms) && !camel_beside_fata_morgana(
                    ms,
                ) && adjustments_share_position(ms) ==> r == Err::<Race, RaceParseError>(
                    RaceParseError::ToManyAdjustmentsInOnePosition,
                ))
                &&& (all_marker_chars(cs) && !camel_beside_oasis(ms) && !camel_beside_fata_morgana(
                    ms,
                ) && !adjustments_share_position(ms) && adjustments_consecutive(ms) ==> r == Err::<
                    Race,
                    RaceParseError,
                >(RaceParseError::ConsecutiveAdjustments))
            }),
    {
        let ghost cs = input@;
        let n = input.unicode_len();
        let mut markers: Vec<Marker> = Vec::new();
        let mut i: usize = 0;
        while i < n
            invariant
                cs == input@,
                n == cs.len(),
                i <= n,
                forall|j: int| 0 <= j < i ==> is_marker_char(cs[j]),
                markers@ == markers_of(cs.subrange(0, i as int)),
            decreases n - i,
        {
            let c = input.get_char(i);
            match Marker::from_char(c) {
                Some(marker) => {
                    markers.push(marker);
                    proof {
                        assert(markers@ =~= markers_of(cs.subrange(0, i as int + 1)));
                    }
                },
                None => {
                    proof {
                        lemma_first_bad_index_is(cs, i as int);
                    }
                    let token = input.substring_char(i, i + 1);
                    proof {
                        assert(token@ =~= seq![cs[i as int]]);
                    }
                    return Err(RaceParseError::NotAMarker(NotAMarker::But(token.to_owned())));
                },
            }
            i += 1;
        }
        proof {
            assert(cs.subrange(0, n as int) =~= cs);
        }
        if find_camel_beside_oasis(&markers) {
            return Err(RaceParseError::CamelInOasis);
        }
        if find_camel_beside_fata_morgana(&markers) {
            return Err(RaceParseError::CamelInFataMorgana);
        }
        if find_adjustments_sharing_position(&markers) {
            return Err(RaceParseError::ToManyAdjustmentsInOnePosition);
        }
        if find_consecutive_adjustments(&markers) {
            return Err(RaceParseError::ConsecutiveAdjustments);
        }
        Ok(Race::from_markers(markers))
    }
}

impl core::str::FromStr for Race {
    type Err = RaceParseError;

    fn from_str(input: &str) -> Result<Race, RaceParseError> {
        Race::parse(input)
    }
}

/// The marker sequences a list of slot vectors stands for.
pub open spec fn views_of(vs: Seq<Vec<Marker>>) -> Seq<Seq<Marker>> {
    vs.map_values(|v: Vec<Marker>| v@)
}

/// Copies the markers of a half-open range into a fresh vector.
fn copy_range(src: &Vec<Marker>, from: usize, to: usize) -> (r: Vec<Marker>)
    requires
        from <= to <= src@.len(),
    ensures
        r@ == src@.subrange(from as int, to as int),
{
    let mut out: Vec<Marker> = Vec::new();
    let mut i: usize = from;
    while i < to
        invariant
            from <= i <= to <= src@.len(),
            out@ =~= src@.subrange(from as int, i as int),
        decreases to - i,
    {
        out.push(src[i]);
        i += 1;
    }
    proof {
        assert(out@ =~= src@.subrange(from as int, to as int));
    }
    out
}

/// Appends the markers of a half-open range to the end of a vector.
fn append_range(dst: &mut Vec<Marker>, src: &Vec<Marker>, from: usize, to: usize)
    requires
        from <= to <= src@.len(),
    ensures
        final(dst)@ == old(dst)@ + src@.subrange(from as int, to as int),
{
    let ghost base = dst@;
    let mut i: usize = from;
    while i < to
        invariant
            from <= i <= to <= src@.len(),
            dst@ =~= base + src@.subrange(from as int, i as int),
        decreases to - i,
    {
        dst.push(src[i]);
        i += 1;
    }
    proof {
        assert(dst@ =~= base + src@.subrange(from as int, to as int));
    }
}

/// Cuts a track into its slots, the runs between dividers.
fn split_into_slots(track: &Vec<Marker>) -> (r: Vec<Vec<Marker>>)
    ensures
        views_of(r@) == split_slots(track@),
        r@.len() == split_slots(track@).len(),
{
    let n = track.len();
    let mut done: Vec<Vec<Marker>> = Vec::new();
    let mut current: Vec<Marker> = Vec::new();
    let mut i: usize = 0;
    while i < n
        invariant
            n == track@.len(),
            i <= n,
            split_slots(track@.subrange(0, i as int)) =~= views_of(done@).push(current@),
        decreases n - i,
    {
        let ghost prefix = track@.subrange(0, i as int);
        let ghost extended = track@.subrange(0, i as int + 1);
        proof {
            assert(extended.drop_last() =~= prefix);
        }
        let marker = track[i];
        if marker.is_a_divider() {
            let ghost done_views = views_of(done@);
            let ghost cur_view = current@;
            done.push(current);
            current = Vec::new();
            proof {
                assert(views_of(done@) =~= done_views.push(cur_view));
            }
        } else {
            current.push(marker);
        }
        i += 1;
    }
    done.push(current);
    proof {
        assert(track@.subrange(0, n as int) =~= track@);
    }
    done
}

/// Counts the dividers among the first `to` markers of a track.
fn count_dividers_upto(track: &Vec<Marker>, to: usize) -> (r: usize)
    requires
        to <= track@.len(),
    ensures
        r == count_dividers(track@.subrange(0, to as int)),
        r <= to,
{
    let mut counted: usize = 0;
    let mut i: usize = 0;
    while i < to
        invariant
            to <= track@.len(),
            i <= to,
            counted <= i,
            counted == count_dividers(track@.subrange(0, i as int)),
        decreases to - i,
    {
        let ghost prefix = track@.subrange(0, i as int);
        let ghost extended = track@.subrange(0, i as int + 1);
        proof {
            assert(extended.drop_last() =~= prefix);
        }
        if track[i].is_a_divider() {
            counted += 1;
        }
        i += 1;
    }
    counted
}

/// Reassembles slots into one track, a divider between each two.
fn join_with_dividers(slots: &Vec<Vec<Marker>>) -> (r: Vec<Marker>)
    ensures
        r@ == join_slots(views_of(slots@)),
{
    let n = slots.len();
    let mut out: Vec<Marker> = Vec::new();
    if n == 0 {
        return out;
    }
    let mut j: usize = 0;
    while j < n
        invariant
            n == slots@.len(),
            j <= n,
            1 <= n,
            j == 0 ==> out@ == Seq::<Marker>::empty(),
            j >= 1 ==> out@ == join_slots(views_of(slots@.subrange(0, j as int))),
        decreases n - j,
    {
        let ghost fore = views_of(slots@.subrange(0, j as int));
        let ghost extended = views_of(slots@.subrange(0, j as int + 1));
        proof {
            assert(extended.drop_last() =~= fore);
            assert(extended.last() == slots@[j as int]@);
        }
        if j > 0 {
            out.push(Marker::Divider);
        }
        let ghost base = out@;
        let m = slots[j].len();
        let mut t: usize = 0;
        while t < m
            invariant
                j < slots@.len(),
                m == slots@[j as int]@.len(),
                t <= m,
                out@ =~= base + slots@[j as int]@.subrange(0, t as int),
            decreases m - t,
        {
            out.push(slots[j][t]);
            t += 1;
        }
        proof {
            assert(slots@[j as int]@.subrange(0, m as int) =~= slots@[j as int]@);
            if j == 0 {
                assert(out@ =~= join_slots(extended));
            } else {
                assert(out@ =~= join_slots(fore) + seq![Marker::Divider] + slots@[j as int]@);
                assert(out@ =~= join_slots(extended));
            }
        }
        j += 1;
    }
    proof {
        assert(slots@.subrange(0, n as int) =~= slots@);
    }
    out
}

proof fn lemma_count_dividers_pad()
    ensures
        count_dividers(
            seq![Marker::Divider, Marker::Divider, Marker::Divider, Marker::Divider],
        ) == 4,
{
    let p4 = seq![Marker::Divider, Marker::Divider, Marker::Divider, Marker::Divider];
    let p3 = seq![Marker::Divider, Marker::Divider, Marker::Divider];
    let p2 = seq![Marker::Divider, Marker::Divider];
    let p1 = seq![Marker::Divider];
    let p0 = Seq::<Marker>::empty();
    assert(p4.last() is Divider);
    assert(p4.drop_last() =~= p3);
    assert(p3.last() is Divider);
    assert(p3.drop_last() =~= p2);
    assert(p2.last() is Divider);
    assert(p2.drop_last() =~= p1);
    assert(p1.last() is Divider);
    assert(p1.drop_last() =~= p0);
    assert(count_dividers(p0) == 0);
    assert(count_dividers(p1) == 1);
    assert(count_dividers(p2) == 2);
    assert(count_dividers(p3) == 3);
    assert(count_dividers(p4) == 4);
}

impl Race {
    /// Performs a roll: returns the race with every camel in its resulting
    /// position.
    ///
    /// A roll of a camel that is not in the race returns the race unchanged.
    #[verifier::rlimit(60)]
    pub fn perform(&self, roll: Roll) -> (r: Race)
        ensures
            r@ == spec_perform(self@, roll.camel, face_steps(roll.face)),
            !self@.contains(Marker::Camel(roll.camel)) ==> r@ == self@,
    {
        proof {
            use_type_invariant(self);
        }
        let ghost s = self@;
        let wanted = Marker::Camel(roll.camel);
        let n = self.positions.len();
        let mut pos: usize = n;
        let mut i: usize = 0;
        while i < n
            invariant
                s == self@,
                n == s.len(),
                i <= n,
                pos <= n,
                wanted == Marker::Camel(roll.camel),
                pos == n ==> (forall|j: int| 0 <= j < i ==> s[j] != Marker::Camel(roll.camel)),
                pos < n ==> s[pos as int] == Marker::Camel(roll.camel),
                pos < n ==> (forall|j: int| 0 <= j < pos ==> s[j] != Marker::Camel(roll.camel)),
            decreases n - i,
        {
            if pos == n && self.positions[i] == wanted {
                pos = i;
            }
            i += 1;
        }
        if pos == n {
            proof {
                assert(!s.contains(Marker::Camel(roll.camel)));
            }
            return self.clone();
        }
        proof {
            lemma_camel_position_is(s, roll.camel, pos as int);
        }
        let mut end: usize = pos;
        while end < n && self.positions[end].is_a_camel()
            invariant
                s == self@,
                n == s.len(),
                pos <= end <= n,
                forall|j: int| pos <= j < end ==> s[j] is Camel,
            decreases n - end,
        {
            end += 1;
        }
        proof {
            lemma_camel_run_length_is(s, pos as int, end as int);
        }
        let unit = copy_range(&self.positions, pos, end);
        let mut rest = copy_range(&self.positions, 0, pos);
        append_range(&mut rest, &self.positions, end, n);
        rest.push(Marker::Divider);
        rest.push(Marker::Divider);
        rest.push(Marker::Divider);
        rest.push(Marker::Divider);
        let ghost pad = seq![Marker::Divider, Marker::Divider, Marker::Divider, Marker::Divider];
        let ghost rest_spec = s.subrange(0, pos as int) + s.subrange(end as int, s.len() as int)
            + pad;
        proof {
            assert(rest@ =~= rest_spec);
        }
        let start = count_dividers_upto(&self.positions, pos);
        let mut slots = split_into_slots(&rest);
        proof {
            lemma_split_slots_len(rest_spec);
            lemma_count_dividers_add(
                s.subrange(0, pos as int) + s.subrange(end as int, s.len() as int),
                pad,
            );
            lemma_count_dividers_add(s.subrange(0, pos as int), s.subrange(end as int, s.len() as int));
            lemma_count_dividers_pad();
            assert(count_dividers(pad) == 4);
            assert(slots@.len() >= start + 5);
        }
        let slot_count = slots.len();
        proof {
            assert(start + 5 <= slot_count);
        }
        let nominal = start + roll.face.steps();
        let ghost slot_views = views_of(slots@);
        proof {
            assert(slot_views[nominal as int] == slots@[nominal as int]@);
        }
        let mut dest: usize = nominal;
        let mut on_top: bool = true;
        let here = slots[nominal].len();
        if here > 0 {
            let last_marker = slots[nominal][here - 1];
            proof {
                assert(last_marker == slot_views[nominal as int].last());
            }
            if last_marker.is_an_oasis() {
                dest = nominal + 1;
                on_top = true;
            } else if last_marker.is_a_fata_morgana() {
                dest = nominal - 1;
                on_top = false;
            }
        }
        proof {
            assert((dest as int, on_top) == landing(slot_views, nominal as int));
        }
        let mut moved: Vec<Marker> = Vec::new();
        if on_top {
            append_range(&mut moved, &slots[dest], 0, slots[dest].len());
            append_range(&mut moved, &unit, 0, unit.len());
            proof {
                assert(moved@ =~= slot_views[dest as int] + unit@);
            }
        } else {
            append_range(&mut moved, &unit, 0, unit.len());
            append_range(&mut moved, &slots[dest], 0, slots[dest].len());
            proof {
                assert(moved@ =~= unit@ + slot_views[dest as int]);
            }
        }
        let ghost moved_view = moved@;
        slots[dest] = moved;
        proof {
            assert(views_of(slots@) =~= slot_views.update(dest as int, moved_view));
        }
        let track = join_with_dividers(&slots);
        let result = Race::from_markers(track);
        proof {
            assert(unit@ == s.subrange(pos as int, pos as int + camel_run_length(s, pos as int)));
        }
        result
    }
}

/// A roll of one camel die.
#[derive(PartialEq, Eq, Structural, Hash, Copy, Clone, Debug)]
pub struct Roll {
    /// The camel that is allowed to move.
    pub camel: Camel,
    /// The face the die shows, i.e. the number of steps to take.
    pub face: Face,
}

impl Roll {
    /// Pairs a camel with the face its die shows.
    pub fn new(camel: Camel, face: Face) -> (r: Roll)
        ensures
            r == (Roll { camel, face }),
    {
        Roll { camel, face }
    }
}

/// The characters that denote a camel marker.
pub open spec fn is_camel_char(c: char) -> bool {
    is_marker_char(c) && marker_of_char(c) is Camel
}

/// Does every character of the sequence denote a camel?
pub open spec fn all_camel_chars(cs: Seq<char>) -> bool {
    forall|i: int| 0 <= i < cs.len() ==> is_camel_char(cs[i])
}

/// Index of the first character that does not denote a camel; meaningful only
/// when there is one.
pub open spec fn first_non_camel_index(cs: Seq<char>) -> int
    decreases cs.len(),
{
    if cs.len() == 0 {
        0
    } else if !is_camel_char(cs[0]) {
        0
    } else {
        1 + first_non_camel_index(cs.skip(1))
    }
}

proof fn lemma_first_non_camel_index_is(cs: Seq<char>, i: int)
    requires
        0 <= i < cs.len(),
        !is_camel_char(cs[i]),
        forall|j: int| 0 <= j < i ==> is_camel_char(cs[j]),
    ensures
        !all_camel_chars(cs),
        first_non_camel_index(cs) == i,
    decreases i,
{
    if i == 0 {
    } else {
        let t = cs.skip(1);
        assert(forall|k: int| 0 <= k < t.len() ==> t[k] == cs[k + 1]);
        assert(!is_camel_char(t[i - 1]));
        lemma_first_non_camel_index_is(t, i - 1);
        assert(is_camel_char(cs[0]));
    }
}

/// The sequence with every repeated camel dropped, keeping first occurrences
/// in order.
pub open spec fn dedup_camels(cs: Seq<Camel>) -> Seq<Camel>
    decreases cs.len(),
{
    if cs.len() == 0 {
        Seq::empty()
    } else {
        let kept = dedup_camels(cs.drop_last());
        if kept.contains(cs.last()) {
            kept
        } else {
            kept.push(cs.last())
        }
    }
}

/// Deduplication yields a sequence without duplicates that holds exactly the
/// camels of the input.
pub proof fn lemma_dedup_camels(cs: Seq<Camel>)
    ensures
        dedup_camels(cs).no_duplicates(),
        forall|c: Camel| dedup_camels(cs).contains(c) <==> cs.contains(c),
    decreases cs.len(),
{
    if cs.len() == 0 {
    } else {
        let fore = cs.drop_last();
        let kept = dedup_camels(fore);
        let out = dedup_camels(cs);
        lemma_dedup_camels(fore);
        assert forall|c: Camel| out.contains(c) implies cs.contains(c) by {
            if kept.contains(c) {
                assert(fore.contains(c));
                let w = choose|i: int| 0 <= i < fore.len() && fore[i] == c;
                assert(cs[w] == c);
            } else {
                assert(c == cs.last());
                assert(cs[cs.len() - 1] == c);
            }
        }
        assert forall|c: Camel| cs.contains(c) implies out.contains(c) by {
            let w = choose|i: int| 0 <= i < cs.len() && cs[i] == c;
            if w < cs.len() - 1 {
                assert(fore[w] == c);
                assert(fore.contains(c));
                assert(kept.contains(c));
                if !kept.contains(cs.last()) {
                    let v = choose|i: int| 0 <= i < kept.len() && kept[i] == c;
                    assert(out[v] == c);
                }
            } else {
                assert(c == cs.last());
                if kept.contains(c) {
                } else {
                    assert(out[out.len() - 1] == c);
                }
            }
        }
    }
}

/// The sequence with the first occurrence of one camel taken out.
pub open spec fn remove_camel(pool: Seq<Camel>, camel: Camel) -> Seq<Camel>
    decreases pool.len(),
{
    if pool.len() == 0 {
        Seq::empty()
    } else if pool[0] == camel {
        pool.skip(1)
    } else {
        seq![pool[0]] + remove_camel(pool.skip(1), camel)
    }
}

/// Removing an absent camel changes nothing.
pub proof fn lemma_remove_camel_absent(pool: Seq<Camel>, camel: Camel)
    requires
        !pool.contains(camel),
    ensures
        remove_camel(pool, camel) == pool,
    decreases pool.len(),
{
    if pool.len() == 0 {
        assert(remove_camel(pool, camel) =~= pool);
    } else {
        assert(pool[0] != camel);
        let t = pool.skip(1);
        assert(forall|k: int| 0 <= k < t.len() ==> t[k] == pool[k + 1]);
        assert(!t.contains(camel));
        lemma_remove_camel_absent(t, camel);
        assert(remove_camel(pool, camel) =~= pool);
    }
}

/// Removing the camel that stands at its first occurrence takes out exactly
/// that entry.
pub proof fn lemma_remove_camel_at(pool: Seq<Camel>, camel: Camel, k: int)
    requires
        0 <= k < pool.len(),
        pool[k] == camel,
        forall|j: int| 0 <= j < k ==> pool[j] != camel,
    ensures
        remove_camel(pool, camel) == pool.remove(k),
    decreases k,
{
    if k == 0 {
        assert(remove_camel(pool, camel) =~= pool.remove(0));
    } else {
        let t = pool.skip(1);
        assert(forall|j: int| 0 <= j < t.len() ==> t[j] == pool[j + 1]);
        lemma_remove_camel_at(t, camel, k - 1);
        assert(pool[0] != camel);
        assert(remove_camel(pool, camel) =~= pool.remove(k));
    }
}

/// Removing a camel keeps the remaining pool free of duplicates and never
/// introduces a camel.
pub proof fn lemma_remove_camel_no_duplicates(pool: Seq<Camel>, camel: Camel)
    requires
        pool.no_duplicates(),
    ensures
        remove_camel(pool, camel).no_duplicates(),
        remove_camel(pool, camel).len() <= pool.len(),
        forall|c: Camel| remove_camel(pool, camel).contains(c) ==> pool.contains(c),
    decreases pool.len(),
{
    if pool.len() == 0 {
    } else if pool[0] == camel {
        let t = pool.skip(1);
        assert(forall|j: int| 0 <= j < t.len() ==> t[j] == pool[j + 1]);
        assert forall|i: int, j: int| 0 <= i < j < t.len() implies t[i] != t[j] by {
            assert(pool[i + 1] != pool[j + 1]);
        }
        assert forall|c: Camel| t.contains(c) implies pool.contains(c) by {
            let w = choose|i: int| 0 <= i < t.len() && t[i] == c;
            assert(pool[w + 1] == c);
        }
    } else {
        let t = pool.skip(1);
        assert(forall|j: int| 0 <= j < t.len() ==> t[j] == pool[j + 1]);
        assert forall|i: int, j: int| 0 <= i < j < t.len() implies t[i] != t[j] by {
            assert(pool[i + 1] != pool[j + 1]);
        }
        lemma_remove_camel_no_duplicates(t, camel);
        let r = remove_camel(pool, camel);
        let rt = remove_camel(t, camel);
        assert(r =~= seq![pool[0]] + rt);
        assert forall|c: Camel| r.contains(c) implies pool.contains(c) by {
            if c == pool[0] {
                assert(pool[0] == c);
                assert(pool.contains(c));
            } else {
                let w = choose|i: int| 0 <= i < r.len() && r[i] == c;
                assert(rt[w - 1] == c);
                assert(rt.contains(c));
                assert(t.contains(c));
                let v = choose|i: int| 0 <= i < t.len() && t[i] == c;
                assert(pool[v + 1] == c);
            }
        }
        assert forall|i: int, j: int| 0 <= i < j < r.len() implies r[i] != r[j] by {
            if i == 0 {
                assert(r[j] == rt[j - 1]);
                assert(rt.contains(rt[j - 1]));
                assert(t.contains(r[j]));
                let v = choose|w: int| 0 <= w < t.len() && t[w] == r[j];
                assert(pool[v + 1] == r[j]);
                assert(pool[0] != pool[v + 1]);
            } else {
                assert(r[i] == rt[i - 1]);
                assert(r[j] == rt[j - 1]);
            }
        }
    }
}

/// Represents the dice that still can be rolled: a set of camels, each at most
/// once.
#[derive(Eq, Debug)]
pub struct Dice {
    camels: Vec<Camel>,
}

impl View for Dice {
    type V = Seq<Camel>;

    closed spec fn view(&self) -> Seq<Camel> {
        self.camels@
    }
}

/// When parsing of dice goes wrong, this tells you precisely what went down.
#[derive(PartialEq, Debug)]
pub enum NoDice {
    /// What is encountered is not even a marker.
    NotAMarker(NotAMarker),
    /// It is a marker, but not a camel.
    NotACamel,
}

impl Dice {
    /// The invariant every dice pool maintains: no camel occurs twice.
    #[verifier::type_invariant]
    pub open spec fn wf(self) -> bool {
        self@.no_duplicates()
    }

    /// Builds a dice pool from a list of camels, dropping repetitions.
    pub fn from_camels(camels: Vec<Camel>) -> (r: Dice)
        ensures
            r@ == dedup_camels(camels@),
    {
        let n = camels.len();
        let mut pool: Vec<Camel> = Vec::new();
        let mut i: usize = 0;
        while i < n
            invariant
                n == camels@.len(),
                i <= n,
                pool@ == dedup_camels(camels@.subrange(0, i as int)),
            decreases n - i,
        {
            let ghost prefix = camels@.subrange(0, i as int);
            let ghost extended = camels@.subrange(0, i as int + 1);
            proof {
                assert(extended.drop_last() =~= prefix);
            }
            let camel = camels[i];
            if !contains_camel(&pool, camel) {
                pool.push(camel);
            }
            i += 1;
        }
        proof {
            assert(camels@.subrange(0, n as int) =~= camels@);
            lemma_dedup_camels(camels@);
        }
        Dice { camels: pool }
    }

    /// How many dice are still in the pool.
    pub fn len(&self) -> (r: usize)
        ensures
            r == self@.len(),
    {
        self.camels.len()
    }

    /// The camel whose die sits at the given place in the pool.
    pub fn get(&self, i: usize) -> (r: Camel)
        requires
            i < self@.len(),
        ensures
            r == self@[i as int],
    {
        self.camels[i]
    }

    /// Remove a die from the pyramid, i.e. the options to throw are reduced.
    /// The original pool is left untouched.
    pub fn remove(&self, camel: Camel) -> (r: Self)
        ensures
            r@ == remove_camel(self@, camel),
    {
        proof {
            use_type_invariant(self);
        }
        let n = self.camels.len();
        let mut kept: Vec<Camel> = Vec::new();
        let mut removed = false;
        let ghost mut at: int = 0;
        let mut i: usize = 0;
        while i < n
            invariant
                n == self@.len(),
                i <= n,
                !removed ==> (forall|j: int| 0 <= j < i ==> self@[j] != camel),
                !removed ==> kept@ == self@.subrange(0, i as int),
                removed ==> 0 <= at < i && self@[at] == camel && (forall|j: int|
                    0 <= j < at ==> self@[j] != camel),
                removed ==> kept@ == self@.subrange(0, at) + self@.subrange(at + 1, i as int),
            decreases n - i,
        {
            let c = self.camels[i];
            if !removed && c == camel {
                removed = true;
                proof {
                    at = i as int;
                    assert(kept@ =~= self@.subrange(0, at) + self@.subrange(at + 1, i as int + 1));
                }
            } else {
                kept.push(c);
                proof {
                    if removed {
                        assert(kept@ =~= self@.subrange(0, at) + self@.subrange(
                            at + 1,
                            i as int + 1,
                        ));
                    } else {
                        assert(kept@ =~= self@.subrange(0, i as int + 1));
                    }
                }
            }
            i += 1;
        }
        proof {
            lemma_remove_camel_no_duplicates(self@, camel);
            if removed {
                lemma_remove_camel_at(self@, camel, at);
                assert(kept@ =~= self@.remove(at));
            } else {
                assert(kept@ =~= self@);
                assert(!self@.contains(camel));
                lemma_remove_camel_absent(self@, camel);
            }
        }
        Dice { camels: kept }
    }

    /// Parses the textual encoding of a dice pool: a sequence of camel
    /// characters, repetitions allowed but recorded once.
    pub fn parse(input: &str) -> (r: Result<Dice, NoDice>)
        ensures
            ({
                let cs = input@;
                &&& (r is Ok <==> all_camel_chars(cs))
                &&& (r matches Ok(dice) ==> dice@ == dedup_camels(camels_of(markers_of(cs))))
                &&& (!all_camel_chars(cs) && is_marker_char(cs[first_non_camel_index(cs)]) ==> r
                    == Err::<Dice, NoDice>(NoDice::NotACamel))
                &&& (!all_camel_chars(cs) && !is_marker_char(cs[first_non_camel_index(cs)]) ==> (
                r matches Err(NoDice::NotAMarker(NotAMarker::But(token))) && token@ == seq![
                    cs[first_non_camel_index(cs)],
                ]))
            }),
    {
        let ghost cs = input@;
        let n = input.unicode_len();
        let mut pool: Vec<Camel> = Vec::new();
        let mut i: usize = 0;
        while i < n
            invariant
                cs == input@,
                n == cs.len(),
                i <= n,
                forall|j: int| 0 <= j < i ==> is_camel_char(cs[j]),
                pool@ == dedup_camels(camels_of(markers_of(cs.subrange(0, i as int)))),
            decreases n - i,
        {
            let ghost racers = camels_of(markers_of(cs.subrange(0, i as int)));
            let ghost extended = camels_of(markers_of(cs.subrange(0, i as int + 1)));
            let c = input.get_char(i);
            match Marker::from_char(c) {
                Some(marker) => {
                    match marker.to_camel() {
                        Some(camel) => {
                            proof {
                                assert(markers_of(cs.subrange(0, i as int + 1)).drop_last()
                                    =~= markers_of(cs.subrange(0, i as int)));
                                assert(extended =~= racers.push(camel));
                                assert(extended.drop_last() =~= racers);
                            }
                            if !contains_camel(&pool, camel) {
                                pool.push(camel);
                            }
                        },
                        None => {
                            proof {
                                lemma_first_non_camel_index_is(cs, i as int);
                            }
                            return Err(NoDice::NotACamel);
                        },
                    }
                },
                None => {
                    proof {
                        lemma_first_non_camel_index_is(cs, i as int);
                    }
                    let token = input.substring_char(i, i + 1);
                    proof {
                        assert(token@ =~= seq![cs[i as int]]);
                    }
                    return Err(NoDice::NotAMarker(NotAMarker::But(token.to_owned())));
                },
            }
            i += 1;
        }
        proof {
            assert(cs.subrange(0, n as int) =~= cs);
            lemma_dedup_camels(camels_of(markers_of(cs)));
        }
        Ok(Dice { camels: pool })
    }
}

/// Is the camel one of those in the list?
fn contains_camel(pool: &Vec<Camel>, camel: Camel) -> (r: bool)
    ensures
        r == pool@.contains(camel),
{
    let n = pool.len();
    let mut i: usize = 0;
    while i < n
        invariant
            n == pool@.len(),
            i <= n,
            forall|j: int| 0 <= j < i ==> pool@[j] != camel,
        decreases n - i,
    {
        if pool[i] == camel {
            return true;
        }
        i += 1;
    }
    false
}

impl Clone for Dice {
    /// A cloned pool holds exactly the same dice.
    fn clone(&self) -> (r: Self)
        ensures
            r@ == self@,
    {
        proof {
            use_type_invariant(self);
        }
        let mut camels: Vec<Camel> = Vec::new();
        let mut i: usize = 0;
        while i < self.camels.len()
            invariant
                i <= self.camels@.len(),
                camels@ =~= self.camels@.subrange(0, i as int),
            decreases self.camels@.len() - i,
        {
            camels.push(self.camels[i]);
            i += 1;
        }
        proof {
            assert(camels@ =~= self@);
        }
        Dice { camels }
    }
}

impl PartialEq for Dice {
    /// Two pools are equal exactly when they list the same camels in the same
    /// order.
    fn eq(&self, other: &Dice) -> (r: bool)
    {
        if self.camels.len() != other.camels.len() {
            return false;
        }
        let mut i: usize = 0;
        while i < self.camels.len()
            invariant
                self.camels@.len() == other.camels@.len(),
                i <= self.camels@.len(),
                forall|j: int| 0 <= j < i ==> self.camels@[j] == other.camels@[j],
            decreases self.camels@.len() - i,
        {
            if self.camels[i] != other.camels[i] {
                return false;
            }
            i += 1;
        }
        proof {
            assert(self.camels@ =~= other.camels@);
        }
        true
    }
}

impl vstd::std_specs::cmp::PartialEqSpecImpl for Dice {
    open spec fn obeys_eq_spec() -> bool {
        true
    }

    open spec fn eq_spec(&self, other: &Dice) -> bool {
        self@ == other@
    }
}

impl Default for Dice {
    /// The full pyramid: every camel still has its die in the pool.
    fn default() -> (r: Self)
        ensures
            r@ == seq![Camel::Red, Camel::Orange, Camel::Yellow, Camel::Green, Camel::White],
    {
        let mut camels: Vec<Camel> = Vec::new();
        camels.push(Camel::Red);
        camels.push(Camel::Orange);
        camels.push(Camel::Yellow);
        camels.push(Camel::Green);
        camels.push(Camel::White);
        proof {
            assert(camels@ =~= seq![
                Camel::Red,
                Camel::Orange,
                Camel::Yellow,
                Camel::Green,
                Camel::White,
            ]);
        }
        Dice { camels }
    }
}

impl core::str::FromStr for Dice {
    type Err = NoDice;

    fn from_str(input: &str) -> Result<Dice, NoDice> {
        Dice::parse(input)
    }
}

} // verus!
