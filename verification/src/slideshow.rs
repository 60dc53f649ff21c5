//! Slideshow sequencing.
//!
//! Deliberately free of any display: what to show and in what order is decided
//! here, textures and timers are somebody else's business.
//!
//! A slideshow always runs over a list of positions handed in by the caller, so
//! whatever filtering is in force carries over. There is no second place that
//! could forget to apply it.
use vstd::prelude::*;
use vstd::slice::*;

use crate::catalog;
use crate::catalog::MediaRow;
use crate::clusters;
use crate::order;
use crate::order::{rearrange, SortKey};
use crate::pathname;
use crate::pathname::components_of;

verus! {

/// The order of a slideshow.
#[derive(Debug, Clone, Copy, PartialEq, Eq, Structural)]
pub enum SlideOrder {
    /// As listed, whatever the list was sorted by.
    AsListed,
    /// Oldest capture first.
    Date,
    /// Best first.
    Rating,
    Shuffle,
}

impl SlideOrder {
    pub const ALL: [SlideOrder; 4] = [
        SlideOrder::AsListed,
        SlideOrder::Date,
        SlideOrder::Rating,
        SlideOrder::Shuffle,
    ];

    /// What the order is called.
    pub fn label(self) -> (r: &'static str)
        ensures
            r@ == match self {
                SlideOrder::AsListed => "as listed"@,
                SlideOrder::Date => "date"@,
                SlideOrder::Rating => "rating"@,
                SlideOrder::Shuffle => "shuffle"@,
            },
    {
        match self {
            SlideOrder::AsListed => "as listed",
            SlideOrder::Date => "date",
            SlideOrder::Rating => "rating",
            SlideOrder::Shuffle => "shuffle",
        }
    }
}

/// The shortest time per slide on offer, in milliseconds.
pub const MIN_INTERVAL: u32 = 1000;

/// The longest time per slide on offer, in milliseconds.
pub const MAX_INTERVAL: u32 = 30000;

/// The time per slide to start with, in milliseconds.
pub const DEFAULT_INTERVAL: u32 = 4000;

/// A running slideshow over a fixed list of positions.
#[derive(Debug, Clone)]
pub struct Slideshow {
    /// Positions in the caller's list of images, in the order they are shown.
    order: Vec<usize>,
    pos: usize,
    pub playing: bool,
    /// Time per slide, in milliseconds.
    pub interval_millis: u32,
}

/// A slideshow as mathematical values.
#[verifier::ext_equal]
pub struct Show {
    pub order: Seq<usize>,
    pub pos: nat,
    pub playing: bool,
    pub interval_millis: u32,
}

impl View for Slideshow {
    type V = Show;

    closed spec fn view(&self) -> Show {
        Show {
            order: self.order@,
            pos: self.pos as nat,
            playing: self.playing,
            interval_millis: self.interval_millis,
        }
    }
}

impl Default for Slideshow {
    fn default() -> (r: Self)
        ensures
            r@ == (Show { order: Seq::empty(), pos: 0, playing: false, interval_millis: 0 }),
    {
        let r: Slideshow = Slideshow {
            order: Vec::new(),
            pos: 0,
            playing: false,
            interval_millis: 0,
        };
        assert(r@.order =~= Seq::empty());
        r
    }
}

/// The image on screen, if there is one.
pub open spec fn on_screen(show: Show) -> Option<usize> {
    if show.pos < show.order.len() {
        Some(show.order[show.pos as int])
    } else {
        None
    }
}

/// Whether a slideshow stands within its list.
pub open spec fn is_placed(show: Show) -> bool {
    show.pos < show.order.len() || (show.order.len() == 0 && show.pos == 0)
}

/// The slideshow one image on.
pub open spec fn advanced(show: Show) -> Show {
    if show.order.len() == 0 {
        show
    } else {
        Show { pos: (show.pos + 1) % show.order.len(), ..show }
    }
}

/// The slideshow one image back.
pub open spec fn gone_back(show: Show) -> Show {
    if show.order.len() == 0 {
        show
    } else {
        Show { pos: ((show.pos + show.order.len() - 1) % show.order.len() as int) as nat, ..show }
    }
}

/// Whether a place of a list holds an image.
pub open spec fn holds(order: Seq<usize>, image: usize) -> spec_fn(int) -> bool {
    |k: int| order[k] == image
}

/// The first place of an image in a list, or past the end.
pub open spec fn place_of(order: Seq<usize>, image: usize) -> int {
    clusters::first_where(holds(order, image), 0, order.len() as int)
}

/// The slideshow over another list: where the image on screen is in it, it stays
/// on screen, and otherwise the show starts over.
pub open spec fn resequenced(show: Show, order: Seq<usize>) -> Show {
    Show {
        order,
        pos: match on_screen(show) {
            Some(image) => if order.contains(image) {
                place_of(order, image) as nat
            } else {
                0
            },
            None => 0,
        },
        ..show
    }
}

impl Slideshow {
    /// Whether the slideshow stands within its list.
    pub open spec fn wf(&self) -> bool {
        is_placed(self@)
    }

    /// A slideshow at its start, not playing.
    pub fn new(order: Vec<usize>) -> (r: Self)
        ensures
            r.wf(),
            r@ == (Show {
                order: order@,
                pos: 0,
                playing: false,
                interval_millis: DEFAULT_INTERVAL,
            }),
    {
        Slideshow { order, pos: 0, playing: false, interval_millis: DEFAULT_INTERVAL }
    }

    /// Whether there is nothing to show.
    pub fn is_empty(&self) -> (r: bool)
        ensures
            r == (self@.order.len() == 0),
    {
        self.order.len() == 0
    }

    /// How many images there are to show.
    pub fn len(&self) -> (r: usize)
        ensures
            r == self@.order.len(),
    {
        self.order.len()
    }

    /// Where the show stands, counted from zero.
    pub fn pos(&self) -> (r: usize)
        ensures
            r == self@.pos,
    {
        self.pos
    }

    /// The position of the image on screen.
    pub fn current(&self) -> (r: Option<usize>)
        ensures
            r == on_screen(self@),
    {
        if self.pos < self.order.len() {
            Some(self.order[self.pos])
        } else {
            None
        }
    }

    /// Advances. At the end it wraps, so that an unattended slideshow loops rather
    /// than stopping on a black screen.
    pub fn next(&mut self)
        requires
            old(self).wf(),
        ensures
            final(self).wf(),
            final(self)@ == advanced(old(self)@),
    {
        let n: usize = self.order.len();
        if n > 0 {
            self.pos = (self.pos + 1) % n;
        }
    }

    /// Goes back, wrapping at the start.
    pub fn prev(&mut self)
        requires
            old(self).wf(),
        ensures
            final(self).wf(),
            final(self)@ == gone_back(old(self)@),
    {
        let n: usize = self.order.len();
        if n > 0 {
            proof {
                let (p, m) = (self.pos as int, n as int);
                if p == 0 {
                    assert((m - 1) % m == m - 1) by (nonlinear_arith)
                        requires
                            m > 0,
                    ;
                } else {
                    assert((p + m - 1) % m == p - 1) by (nonlinear_arith)
                        requires
                            0 < p < m,
                    ;
                }
            }
            self.pos = if self.pos == 0 {
                n - 1
            } else {
                self.pos - 1
            };
        }
    }

    /// Jumps to the start, whether it plays or not.
    pub fn restart(&mut self)
        ensures
            final(self).wf(),
            final(self)@ == (Show { pos: 0, ..old(self)@ }),
    {
        self.pos = 0;
    }

    /// Replaces the list. Sorting it anew in mid-show does not yank the image
    /// away.
    pub fn resequence(&mut self, order: Vec<usize>)
        ensures
            final(self).wf(),
            final(self)@ == resequenced(old(self)@, order@),
    {
        let ghost before = self@;
        self.pos = match self.current() {
            Some(image) => match find_image(&order, image) {
                Some(k) => k,
                None => 0,
            },
            None => 0,
        };
        self.order = order;
        proof {
            if let Some(image) = on_screen(before) {
                if self.order@.contains(image) {
                    let k = choose|k: int| 0 <= k < self.order@.len() && self.order@[k] == image;
                    assert(holds(self.order@, image)(k));
                    clusters::lemma_first_is(
                        holds(self.order@, image),
                        0,
                        self.order@.len() as int,
                        k,
                    );
                }
            }
        }
        assert(self@ =~= resequenced(before, self.order@));
    }
}

/// The first place of an image in a list.
fn find_image(order: &Vec<usize>, image: usize) -> (r: Option<usize>)
    ensures
        r is Some <==> order@.contains(image),
        r matches Some(k) ==> k == place_of(order@, image),
{
    let mut k: usize = 0;
    while k < order.len()
        invariant
            k <= order@.len(),
            forall|i: int| 0 <= i < k ==> order@[i] != image,
        decreases order@.len() - k,
    {
        if order[k] == image {
            proof {
                let is_image = holds(order@, image);
                assert forall|i: int| 0 <= i < k implies !#[trigger] is_image(i) by {
                    assert(order@[i] != image);
                }
                assert(is_image(k as int));
                clusters::lemma_first_where(is_image, 0, order@.len() as int, k as int);
            }
            return Some(k);
        }
        k += 1;
    }
    None
}

/// When an image was taken, or else last changed.
pub open spec fn moment(row: catalog::Row) -> i64 {
    match row.date_taken {
        Some(t) => t,
        None => row.mtime,
    }
}

/// What images are sorted by for showing them by date.
pub open spec fn date_key(row: catalog::Row) -> order::Key {
    order::Key {
        first: moment(row) as int,
        words: pathname::components(row.path),
        ..order::no_key()
    }
}

/// What images are sorted by for showing them by rating.
pub open spec fn rating_key(row: catalog::Row) -> order::Key {
    order::Key {
        first: -(row.rating as int),
        words: pathname::components(row.path),
        ..order::no_key()
    }
}

/// The next state of the generator: a xorshift of 64 bits.
pub open spec fn xorshift(state: u64) -> u64 {
    let a = state ^ (state << 13);
    let b = a ^ (a >> 7);
    b ^ (b << 17)
}

/// A list with two of its places exchanged.
pub open spec fn swapped<A>(items: Seq<A>, i: int, j: int) -> Seq<A> {
    items.update(i, items[j]).update(j, items[i])
}

/// The list after the exchanges for the places from `i` down to the second: each
/// place is exchanged with one at or before it.
pub open spec fn shuffled_down(items: Seq<usize>, state: u64, i: int) -> Seq<usize>
    decreases i,
{
    if i < 1 {
        items
    } else {
        let s = xorshift(state);
        shuffled_down(swapped(items, i, s as int % (i + 1)), s, i - 1)
    }
}

/// What the generator starts from: a seed of zero would only ever give zeros.
pub open spec fn start_state(seed: u64) -> u64 {
    if seed == 0 {
        0x9E37_79B9_7F4A_7C15
    } else {
        seed
    }
}

/// A shuffled list.
pub open spec fn shuffled(items: Seq<usize>, seed: u64) -> Seq<usize> {
    shuffled_down(items, start_state(seed), items.len() - 1)
}

/// Shuffles a list. The same seed always gives the same order.
pub fn shuffle(items: &mut Vec<usize>, seed: u64)
    ensures
        final(items)@ == shuffled(old(items)@, seed),
{
    if items.len() < 2 {
        return;
    }
    let ghost start = items@;
    let mut state: u64 = if seed == 0 {
        0x9E37_79B9_7F4A_7C15
    } else {
        seed
    };
    let n: usize = items.len();
    let mut i: usize = n - 1;
    while i >= 1
        invariant
            start == old(items)@,
            items@.len() == n,
            i < n,
            shuffled_down(items@, state, i as int) == shuffled(start, seed),
        decreases i,
    {
        let ghost before = items@;
        let ghost last = state;
        state = state ^ (state << 13);
        state = state ^ (state >> 7);
        state = state ^ (state << 17);
        assert(state == xorshift(last));
        let j: usize = (state % (i as u64 + 1)) as usize;
        let x: usize = items[i];
        let y: usize = items[j];
        items.set(i, y);
        items.set(j, x);
        assert(items@ =~= swapped(before, i as int, j as int));
        i -= 1;
    }
}

/// The order of a slideshow over the images at some positions.
pub open spec fn sequence(
    rows: Seq<catalog::Row>,
    visible: Seq<usize>,
    by: SlideOrder,
    seed: u64,
) -> Seq<usize> {
    match by {
        SlideOrder::AsListed => visible,
        SlideOrder::Date => order::rearranged(
            visible,
            visible.map_values(|i: usize| date_key(rows[i as int])),
        ),
        SlideOrder::Rating => order::rearranged(
            visible,
            visible.map_values(|i: usize| rating_key(rows[i as int])),
        ),
        SlideOrder::Shuffle => shuffled(visible, seed),
    }
}

fn show_keys(rows: &[MediaRow], visible: &[usize], by_date: bool) -> (r: Vec<SortKey>)
    requires
        forall|k: int| 0 <= k < visible@.len() ==> (#[trigger] visible@[k]) < rows@.len(),
    ensures
        by_date ==> order::keys_of(r@) == visible@.map_values(
            |i: usize| date_key(catalog::rows_of(rows@)[i as int]),
        ),
        !by_date ==> order::keys_of(r@) == visible@.map_values(
            |i: usize| rating_key(catalog::rows_of(rows@)[i as int]),
        ),
{
    let ghost rs = catalog::rows_of(rows@);
    let mut out: Vec<SortKey> = Vec::new();
    let mut k: usize = 0;
    while k < visible.len()
        invariant
            rs == catalog::rows_of(rows@),
            forall|k: int| 0 <= k < visible@.len() ==> (#[trigger] visible@[k]) < rows@.len(),
            k <= visible@.len(),
            out@.len() == k,
            forall|m: int|
                0 <= m < k ==> (#[trigger] out@[m])@ == if by_date {
                    date_key(rs[visible@[m] as int])
                } else {
                    rating_key(rs[visible@[m] as int])
                },
        decreases visible@.len() - k,
    {
        let row: &MediaRow = &rows[visible[k]];
        assert(row@ == rs[visible@[k as int] as int]);
        let first: i128 = if by_date {
            match row.date_taken {
                Some(t) => t as i128,
                None => row.mtime as i128,
            }
        } else {
            -(row.rating as i128)
        };
        let key: SortKey = SortKey {
            lead: Vec::new(),
            first,
            second: 0,
            third: 0,
            fourth: 0,
            words: components_of(row.path.as_str()),
        };
        assert(key@ =~= if by_date {
            date_key(row@)
        } else {
            rating_key(row@)
        });
        out.push(key);
        k += 1;
    }
    proof {
        if by_date {
            assert(order::keys_of(out@) =~= visible@.map_values(
                |i: usize| date_key(rs[i as int]),
            ));
        } else {
            assert(order::keys_of(out@) =~= visible@.map_values(
                |i: usize| rating_key(rs[i as int]),
            ));
        }
    }
    out
}

proof fn lemma_nothing_to_sort(items: Seq<usize>, keys: Seq<order::Key>)
    requires
        items.len() == keys.len(),
        items.len() < 2,
    ensures
        order::rearranged(items, keys) == items,
{
    order::stable_order_is_in_order(keys);
    assert(order::rearranged(items, keys) =~= items);
}

/// The order of a slideshow over the images at some positions. `visible` is
/// filtered and sorted already.
pub fn build_order(rows: &[MediaRow], visible: &[usize], order: SlideOrder, seed: u64) -> (r: Vec<
    usize,
>)
    requires
        (order is Date || order is Rating) && visible@.len() > 1 ==> forall|k: int|
            0 <= k < visible@.len() ==> (#[trigger] visible@[k]) < rows@.len(),
    ensures
        r@ == sequence(catalog::rows_of(rows@), visible@, order, seed),
{
    if visible.len() < 2 {
        proof {
            let rs = catalog::rows_of(rows@);
            lemma_nothing_to_sort(
                visible@,
                visible@.map_values(|i: usize| date_key(rs[i as int])),
            );
            lemma_nothing_to_sort(
                visible@,
                visible@.map_values(|i: usize| rating_key(rs[i as int])),
            );
        }
        return slice_to_vec(visible);
    }
    match order {
        SlideOrder::AsListed => slice_to_vec(visible),
        SlideOrder::Date => {
            let keys: Vec<SortKey> = show_keys(rows, visible, true);
            assert(order::keys_of(keys@).len() == visible@.len());
            rearrange(visible, keys.as_slice())
        },
        SlideOrder::Rating => {
            let keys: Vec<SortKey> = show_keys(rows, visible, false);
            assert(order::keys_of(keys@).len() == visible@.len());
            rearrange(visible, keys.as_slice())
        },
        SlideOrder::Shuffle => {
            let mut out: Vec<usize> = slice_to_vec(visible);
            shuffle(&mut out, seed);
            out
        },
    }
}

proof fn lemma_swap_keeps_items<A>(items: Seq<A>, i: int, j: int)
    requires
        0 <= j <= i < items.len(),
    ensures
        swapped(items, i, j).to_multiset() == items.to_multiset(),
        swapped(items, i, j).len() == items.len(),
{
    broadcast use vstd::seq_lib::group_to_multiset_ensures;

    let after = swapped(items, i, j);
    if i == j {
        assert(after =~= items);
    } else {
        assert(items.remove(i).remove(j) =~= after.remove(i).remove(j));
        assert(items.remove(i)[j] == items[j]);
        assert(after.remove(i)[j] == items[i]);
        let rest = items.remove(i).remove(j).to_multiset();
        assert(items.contains(items[i]) && items.remove(i).contains(items[j])) by {
            assert(items.remove(i)[j] == items[j]);
        }
        assert(after.contains(items[j]) && after.remove(i).contains(items[i])) by {
            assert(after[i] == items[j]);
            assert(after.remove(i)[j] == items[i]);
        }
        assert(items.to_multiset() =~= rest.insert(items[j]).insert(items[i]));
        assert(after.to_multiset() =~= rest.insert(items[i]).insert(items[j]));
        assert(rest.insert(items[j]).insert(items[i]) =~= rest.insert(items[i]).insert(items[j]));
    }
}

proof fn lemma_shuffle_keeps_items(items: Seq<usize>, state: u64, i: int)
    requires
        i < items.len(),
    ensures
        shuffled_down(items, state, i).to_multiset() == items.to_multiset(),
    decreases i,
{
    if i >= 1 {
        let s = xorshift(state);
        let j = s as int % (i + 1);
        lemma_swap_keeps_items(items, i, j);
        lemma_shuffle_keeps_items(swapped(items, i, j), s, i - 1);
    }
}

/// However a slideshow is ordered, it shows every image handed in, as often as it
/// was handed in, and no other.
pub proof fn every_order_shows_every_image(
    rows: Seq<catalog::Row>,
    visible: Seq<usize>,
    by: SlideOrder,
    seed: u64,
)
    ensures
        sequence(rows, visible, by, seed).to_multiset() == visible.to_multiset(),
        sequence(rows, visible, by, seed).len() == visible.len(),
{
    broadcast use vstd::seq_lib::group_to_multiset_ensures;

    match by {
        SlideOrder::AsListed => {},
        SlideOrder::Date => {
            order::rearranging_keeps_every_item(
                visible,
                visible.map_values(|i: usize| date_key(rows[i as int])),
            );
        },
        SlideOrder::Rating => {
            order::rearranging_keeps_every_item(
                visible,
                visible.map_values(|i: usize| rating_key(rows[i as int])),
            );
        },
        SlideOrder::Shuffle => {
            lemma_shuffle_keeps_items(visible, start_state(seed), visible.len() - 1);
        },
    }
    assert(sequence(rows, visible, by, seed).to_multiset().len() == visible.to_multiset().len());
}

/// Going on and back, or back and on, ends where it began.
pub proof fn going_back_undoes_going_on(show: Show)
    requires
        is_placed(show),
    ensures
        gone_back(advanced(show)) == show,
        advanced(gone_back(show)) == show,
{
    let n = show.order.len() as int;
    let p = show.pos as int;
    if n > 0 {
        assert(((p + 1) % n + n - 1) % n == p && ((p + n - 1) % n + 1) % n == p) by {
            if p + 1 == n {
                assert((p + 1) % n == 0 && (n - 1) % n == n - 1 && (p + n - 1) % n == p - 1 + (if p
                    == 0 {
                    n
                } else {
                    0
                })) by (nonlinear_arith)
                    requires
                        p + 1 == n,
                        0 <= p,
                ;
                if p > 0 {
                    assert((p - 1 + 1) % n == p) by (nonlinear_arith)
                        requires
                            0 <= p < n,
                    ;
                }
            } else {
                assert((p + 1) % n == p + 1 && (p + 1 + n - 1) % n == p) by (nonlinear_arith)
                    requires
                        0 <= p,
                        p + 1 < n,
                ;
                if p == 0 {
                    assert((n - 1) % n == n - 1 && (n - 1 + 1) % n == 0) by (nonlinear_arith)
                        requires
                            n > 0,
                    ;
                } else {
                    assert((p + n - 1) % n == p - 1 && (p - 1 + 1) % n == p) by (nonlinear_arith)
                        requires
                            0 < p < n,
                    ;
                }
            }
        }
    }
}

/// The slideshow some images on.
pub open spec fn advanced_by(show: Show, n: nat) -> Show
    decreases n,
{
    if n == 0 {
        show
    } else {
        advanced(advanced_by(show, (n - 1) as nat))
    }
}

/// Playback goes round: after as many images as there are the show is where it began,
/// and on the way it stood at every place.
pub proof fn playback_goes_round(show: Show, n: nat)
    requires
        is_placed(show),
        show.order.len() > 0,
    ensures
        advanced_by(show, n) == (Show { pos: (show.pos + n) % show.order.len(), ..show }),
        advanced_by(show, show.order.len()) == show,
{
    let len = show.order.len() as int;
    lemma_advanced_by(show, n);
    lemma_advanced_by(show, show.order.len());
    assert((show.pos + len) % len == show.pos) by (nonlinear_arith)
        requires
            0 <= show.pos < len,
    ;
}

proof fn lemma_advanced_by(show: Show, n: nat)
    requires
        is_placed(show),
        show.order.len() > 0,
    ensures
        advanced_by(show, n) == (Show { pos: (show.pos + n) % show.order.len(), ..show }),
    decreases n,
{
    let len = show.order.len() as int;
    if n == 0 {
        assert(show.pos as int % len == show.pos) by (nonlinear_arith)
            requires
                0 <= show.pos < len,
        ;
    } else {
        lemma_advanced_by(show, (n - 1) as nat);
        let before = show.pos + n - 1;
        vstd::arithmetic::div_mod::lemma_add_mod_noop(before as int, 1, len);
        vstd::arithmetic::div_mod::lemma_add_mod_noop_right(1, before as int, len);
    }
}

/// A new list does not change what is on screen if that is in the list.
pub proof fn resequencing_keeps_the_image(show: Show, order: Seq<usize>, image: usize)
    requires
        on_screen(show) == Some(image),
        order.contains(image),
    ensures
        on_screen(resequenced(show, order)) == Some(image),
{
    let is_image = holds(order, image);
    let k = choose|k: int| 0 <= k < order.len() && order[k] == image;
    assert(is_image(k));
    clusters::lemma_first_is(is_image, 0, order.len() as int, k);
    assert(is_image(place_of(order, image)));
}

/// In a slideshow by date no image comes after one that was taken later: an image goes
/// by the date it was taken, by that of its file where none is known, and images of one
/// moment go by path.
pub proof fn slides_by_date_go_forward_in_time(
    rows: Seq<catalog::Row>,
    visible: Seq<usize>,
    seed: u64,
    i: int,
    j: int,
)
    requires
        0 <= i < j < visible.len(),
    ensures
        ({
            let order = sequence(rows, visible, SlideOrder::Date, seed);
            let a = rows[order[i] as int];
            let b = rows[order[j] as int];
            let earlier = if a.date_taken is Some {
                a.date_taken->0
            } else {
                a.mtime
            };
            let later = if b.date_taken is Some {
                b.date_taken->0
            } else {
                b.mtime
            };
            &&& earlier <= later
            &&& earlier == later ==> !order::words_lt(
                pathname::components(b.path),
                pathname::components(a.path),
            )
        }),
{
    let keys = visible.map_values(|i: usize| date_key(rows[i as int]));
    let at = order::sorting_goes_by_key(visible, keys);
    assert(at[i] != at[j]);
}

/// In a slideshow by rating no image comes after one with fewer stars, and images with
/// equally many go by path.
pub proof fn slides_by_rating_go_down(
    rows: Seq<catalog::Row>,
    visible: Seq<usize>,
    seed: u64,
    i: int,
    j: int,
)
    requires
        0 <= i < j < visible.len(),
    ensures
        ({
            let order = sequence(rows, visible, SlideOrder::Rating, seed);
            let a = rows[order[i] as int];
            let b = rows[order[j] as int];
            &&& a.rating >= b.rating
            &&& a.rating == b.rating ==> !order::words_lt(
                pathname::components(b.path),
                pathname::components(a.path),
            )
        }),
{
    let keys = visible.map_values(|i: usize| rating_key(rows[i as int]));
    let at = order::sorting_goes_by_key(visible, keys);
    assert(at[i] != at[j]);
}

/// In a slideshow as listed the images come as they are listed.
pub proof fn slides_as_listed_keep_their_places(
    rows: Seq<catalog::Row>,
    visible: Seq<usize>,
    seed: u64,
)
    ensures
        sequence(rows, visible, SlideOrder::AsListed, seed) == visible,
{
}

/// The image that a slideshow goes on to is the next in its order, after the last the
/// first; and the one it goes back to the one before.
pub proof fn slides_follow_one_another(show: Show)
    requires
        show.pos < show.order.len(),
    ensures
        on_screen(show) == Some(show.order[show.pos as int]),
        show.pos + 1 < show.order.len() ==> on_screen(advanced(show)) == Some(
            show.order[show.pos as int + 1],
        ),
        show.pos + 1 == show.order.len() ==> on_screen(advanced(show)) == Some(show.order[0]),
        show.pos > 0 ==> on_screen(gone_back(show)) == Some(show.order[show.pos - 1]),
        show.pos == 0 ==> on_screen(gone_back(show)) == Some(show.order.last()),
        advanced(show).order == show.order && gone_back(show).order == show.order,
{
    let n = show.order.len() as int;
    let p = show.pos as int;
    assert((p + 1) % n == if p + 1 == n {
        0
    } else {
        p + 1
    }) by {
        if p + 1 < n {
            vstd::arithmetic::div_mod::lemma_small_mod((p + 1) as nat, n as nat);
        } else {
            vstd::arithmetic::div_mod::lemma_mod_self_0(n);
        }
    }
    assert((p + n - 1) % n == if p == 0 {
        n - 1
    } else {
        p - 1
    }) by {
        if p == 0 {
            vstd::arithmetic::div_mod::lemma_small_mod((n - 1) as nat, n as nat);
        } else {
            vstd::arithmetic::div_mod::lemma_mod_add_multiples_vanish(p - 1, n);
            vstd::arithmetic::div_mod::lemma_small_mod((p - 1) as nat, n as nat);
        }
    }
}

proof fn lemma_shuffle_leaves_the_rest(items: Seq<usize>, state: u64, i: int, k: int)
    requires
        0 <= k < items.len(),
        i < items.len(),
        i < k,
    ensures
        shuffled_down(items, state, i)[k] == items[k],
        shuffled_down(items, state, i).len() == items.len(),
    decreases i,
{
    if i >= 1 {
        let s = xorshift(state);
        let j = s as int % (i + 1);
        lemma_shuffle_leaves_the_rest(swapped(items, i, j), s, i - 1, k);
    }
}

/// A shuffle deals the last place first: the image there is the one at the place that
/// the first number drawn names, out of all of them.
pub proof fn shuffles_draw_from_all_images(rows: Seq<catalog::Row>, visible: Seq<usize>, seed: u64)
    requires
        visible.len() >= 1,
    ensures
        ({
            let s = if seed == 0 {
                0x9E37_79B9_7F4A_7C15u64
            } else {
                seed
            };
            let a = s ^ (s << 13);
            let b = a ^ (a >> 7);
            let drawn = b ^ (b << 17);
            visible.len() > 1 ==> sequence(rows, visible, SlideOrder::Shuffle, seed).last()
                == visible[drawn as int % visible.len() as int]
        }),
        sequence(rows, visible, SlideOrder::Shuffle, seed).len() == visible.len(),
{
    let n = visible.len() as int;
    let s = xorshift(start_state(seed));
    let j = s as int % n;
    if n > 1 {
        lemma_shuffle_leaves_the_rest(swapped(visible, n - 1, j), s, n - 2, n - 1);
    }
}

proof fn lemma_first_place(order: Seq<usize>, image: usize, lo: int, k: int)
    requires
        0 <= lo <= k < order.len(),
        order[k] == image,
    ensures
        lo <= clusters::first_where(holds(order, image), lo, order.len() as int) <= k,
        order[clusters::first_where(holds(order, image), lo, order.len() as int)] == image,
    decreases k - lo,
{
    if order[lo] != image {
        lemma_first_place(order, image, lo + 1, k);
    }
}

/// The place where the image on the screen is found again is its first in the new
/// order; an image that is not in it gives way to the first.
pub proof fn resequencing_goes_to_the_first_place(show: Show, order: Seq<usize>, k: int)
    requires
        show.pos < show.order.len(),
        0 <= k < order.len(),
    ensures
        order[k] == show.order[show.pos as int] ==> resequenced(show, order).pos <= k && order[
            resequenced(show, order).pos as int] == order[k],
        !order.contains(show.order[show.pos as int]) ==> resequenced(show, order).pos == 0,
        resequenced(show, order).order == order,
        resequenced(show, order).playing == show.playing,
        resequenced(show, order).interval_millis == show.interval_millis,
{
    let image = show.order[show.pos as int];
    if order[k] == image {
        assert(order.contains(image));
        assert(holds(order, image)(k));
        lemma_first_place(order, image, 0, k);
    }
}

/// How a shuffle goes: from the last place down to the second, each place is exchanged with
/// the one that the next number drawn names, out of it and those before it. Each number is
/// drawn from the one before, the first from the seed.
pub proof fn shuffles_exchange_place_by_place(
    rows: Seq<catalog::Row>,
    visible: Seq<usize>,
    seed: u64,
) -> (deals: (Seq<Seq<usize>>, Seq<u64>))
    requires
        visible.len() >= 1,
    ensures
        deals.0.len() == visible.len() && deals.1.len() == visible.len(),
        deals.0[0] == visible,
        deals.1[0] == if seed == 0 {
            0x9E37_79B9_7F4A_7C15u64
        } else {
            seed
        },
        deals.0.last() == sequence(rows, visible, SlideOrder::Shuffle, seed),
        forall|k: int|
            0 <= k < visible.len() - 1 ==> {
                let s = #[trigger] deals.1[k];
                let a = s ^ (s << 13);
                let b = a ^ (a >> 7);
                let drawn = b ^ (b << 17);
                let i = visible.len() - 1 - k;
                let j = drawn as int % (i + 1);
                &&& deals.1[k + 1] == drawn
                &&& deals.0[k + 1] == deals.0[k].update(i, deals.0[k][j]).update(j, deals.0[k][i])
            },
{
    lemma_deals(visible, start_state(seed), visible.len() - 1)
}

proof fn lemma_deals(items: Seq<usize>, state: u64, i: int) -> (deals: (
    Seq<Seq<usize>>,
    Seq<u64>,
))
    requires
        0 <= i < items.len(),
    ensures
        deals.0.len() == i + 1 && deals.1.len() == i + 1,
        deals.0[0] == items,
        deals.1[0] == state,
        deals.0.last() == shuffled_down(items, state, i),
        forall|k: int|
            0 <= k < i ==> {
                let s = #[trigger] deals.1[k];
                let at = i - k;
                let j = xorshift(s) as int % (at + 1);
                &&& deals.1[k + 1] == xorshift(s)
                &&& deals.0[k + 1] == swapped(deals.0[k], at, j)
            },
    decreases i,
{
    if i < 1 {
        (seq![items], seq![state])
    } else {
        let s = xorshift(state);
        let j = s as int % (i + 1);
        let next = swapped(items, i, j);
        let (x, y) = lemma_deals(next, s, i - 1);
        let deals = (seq![items] + x, seq![state] + y);
        assert forall|k: int| 0 <= k < i implies {
            let s = #[trigger] deals.1[k];
            let at = i - k;
            let j = xorshift(s) as int % (at + 1);
            &&& deals.1[k + 1] == xorshift(s)
            &&& deals.0[k + 1] == swapped(deals.0[k], at, j)
        } by {
            if k == 0 {
                assert(deals.1[1] == y[0] && deals.0[1] == x[0]);
            } else {
                assert(deals.1[k] == y[k - 1] && deals.1[k + 1] == y[k - 1 + 1]);
                assert(deals.0[k] == x[k - 1] && deals.0[k + 1] == x[k - 1 + 1]);
                assert(i - k == i - 1 - (k - 1));
            }
        }
        assert(deals.0.last() == x.last());
        deals
    }
}

} // verus!
