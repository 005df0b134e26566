//! Moving a zipper over a compact trie.

use vstd::prelude::*;

use crate::arena_compact::act_zipper::{is_neighbour, lemma_single, ACTZipper};
use crate::arena_compact::tree::Storage;
use crate::observer::PathObserver;
use crate::slices::{find_prefix_overlap, lemma_overlap, overlap, part};
use crate::trie::{chain, lemma_chain_at, Trie};
use crate::trie_walk::{
    cond_reach, kids_of, lemma_look_concat, lemma_look_push, lemma_reach_bound, lemma_reach_chain,
    lemma_reach_step, lemma_run_chain, lemma_run_end, look, reach, run_below, stops, val_of,
    val_reach,
};
use crate::utils::bits::{lemma_members, lemma_rank_is_len, members, rank};
use crate::utils::byte_mask::BitMask;
use crate::zipper::up;

verus! {

impl<'tree, S: Storage, Value> ACTZipper<'tree, S, Value> {
    /// A move down changes what is at the focus to what the bytes lead to.
    pub proof fn lemma_here_below(&self, before: &Self, more: Seq<u8>)
        requires
            self.moved(before, before.rel() + more),
        ensures
            self.here() == look(before.here(), more),
    {
        lemma_look_concat(before.root(), before.rel(), more);
    }

    /// Descends along `path` for as long as it leads on, and no further than the first value
    /// below the focus where `on_value` says so.
    fn descend_cond(&mut self, path: &[u8], on_value: bool) -> (n: usize)
        requires
            old(self).wf(),
        ensures
            n == cond_reach(old(self).here(), path@, on_value),
            n <= path@.len(),
            final(self).moved(old(self), old(self).rel() + path@.subrange(0, n as int)),
    {
        let ghost h0 = self.here();
        proof {
            lemma_reach_bound(h0, path@);
            assert(old(self).rel() + path@.subrange(0, 0) =~= old(self).rel());
            assert(path@.subrange(0, path@.len() as int) =~= path@);
        }
        if !self.path_exists() {
            return 0;
        }
        let mut descended: usize = 0;
        while descended < path.len()
            invariant_except_break
                cond_reach(h0, path@, on_value) == descended + if on_value && descended > 0
                    && val_of(self.here()) is Some {
                    0
                } else {
                    cond_reach(
                        self.here(),
                        path@.subrange(descended as int, path@.len() as int),
                        on_value,
                    )
                },
            invariant
                self.wf(),
                self.here() is Some,
                descended <= path@.len(),
                self.moved(old(self), old(self).rel() + path@.subrange(0, descended as int)),
            ensures
                descended == cond_reach(h0, path@, on_value),
            decreases path@.len() - descended,
        {
            let ghost before = *self;
            let ghost rest = path@.subrange(descended as int, path@.len() as int);
            proof {
                lemma_reach_step(self.here(), rest, on_value);
            }
            if on_value && descended > 0 && self.is_val() {
                break ;
            }
            match self.rest_of_line() {
                Some(rest_line) => {
                    let common = find_prefix_overlap(part(path, descended, path.len()), rest_line);
                    proof {
                        lemma_overlap(rest, rest_line@);
                        if rest_line@.len() > 0 {
                            lemma_reach_chain(
                                rest_line@,
                                self.line_target(),
                                rest,
                                common as nat,
                                on_value,
                            );
                        } else {
                            self.lemma_line_over();
                        }
                    }
                    if common == 0 {
                        proof {
                            if rest_line@.len() > 0 {
                                assert(rest.subrange(0, rest.len() as int) =~= rest);
                                assert(chain(rest_line@, self.line_target()).kids.dom()
                                    =~= Set::<u8>::empty().insert(rest_line@[0]));
                            }
                        }
                        break ;
                    }
                    self.advance_line(common);
                    descended = descended + common;
                    proof {
                        let more = rest.subrange(0, common as int);
                        assert(rest_line@.subrange(0, common as int) =~= more);
                        self.lemma_here_below(&before, more);
                        lemma_step_path(old(self).rel(), path@, descended - common, common as int);
                        assert(rest.subrange(common as int, rest.len() as int)
                            =~= path@.subrange(descended as int, path@.len() as int));
                    }
                },
                None => {
                    let byte = path[descended];
                    assert(rest[0] == byte);
                    if !self.child_mask().test_bit(byte) {
                        break ;
                    }
                    self.enter_child(byte);
                    descended = descended + 1;
                    proof {
                        let more = seq![byte];
                        assert(before.rel().push(byte) =~= before.rel() + more);
                        self.lemma_here_below(&before, more);
                        lemma_look_push(before.here(), Seq::empty(), byte);
                        assert(look(before.here(), Seq::<u8>::empty()) == before.here());
                        assert(rest.subrange(0, 1) =~= more);
                        lemma_step_path(old(self).rel(), path@, descended - 1, 1);
                        assert(rest.drop_first() =~= path@.subrange(
                            descended as int,
                            path@.len() as int,
                        ));
                    }
                },
            }
        }
        descended
    }

    /// Moves the zipper deeper into the trie, following `path`, relative to the current zipper
    /// focus. Descent stops at the point where the path does not exist.
    ///
    /// Returns the number of bytes descended along the path. The zipper's focus will always be on
    /// an existing path after this method returns, unless the method was called with the focus on
    /// a non-existent path.
    pub fn descend_to_existing(&mut self, path: &[u8]) -> (n: usize)
        requires
            old(self).wf(),
        ensures
            n == reach(old(self).here(), path@),
            n <= path@.len(),
            final(self).moved(old(self), old(self).rel() + path@.subrange(0, n as int)),
    {
        self.descend_cond(path, false)
    }

    /// Moves the zipper deeper into the trie, following `path`, relative to the current zipper
    /// focus. Descent stops if a value is encountered or if the path ceases to exist.
    ///
    /// Returns the number of bytes descended along the path. If the focus is already on a value,
    /// this method will descend to the *next* value along the path.
    pub fn descend_to_val(&mut self, path: &[u8]) -> (n: usize)
        requires
            old(self).wf(),
        ensures
            n == val_reach(old(self).here(), path@),
            n <= path@.len(),
            final(self).moved(old(self), old(self).rel() + path@.subrange(0, n as int)),
    {
        self.descend_cond(path, true)
    }

    /// Moves the zipper deeper into the trie, to the `path` specified relative to the current
    /// zipper focus, whether or not the path exists within the tree.
    pub fn descend_to(&mut self, path: &[u8])
        requires
            old(self).wf(),
        ensures
            final(self).moved(old(self), old(self).rel() + path@),
    {
        let descended = self.descend_to_existing(path);
        let ghost done = path@.subrange(0, descended as int);
        let ghost more = path@.subrange(descended as int, path@.len() as int);
        proof {
            assert(done + more =~= path@);
            assert(old(self).rel() + path@ =~= (old(self).rel() + done) + more);
        }
        if descended != path.len() {
            proof {
                let b = path@[descended as int];
                lemma_reach_bound(old(self).here(), path@);
                self.lemma_here_below(old(self), done);
                lemma_look_push(old(self).here(), done, b);
                assert(done.push(b) =~= path@.subrange(0, descended + 1));
                assert(more[0] == b);
            }
            self.extend_off(part(path, descended, path.len()));
        } else {
            assert(done =~= path@);
        }
    }

    /// Moves the zipper one byte deeper into the trie. Identical in effect to
    /// [descend_to](Self::descend_to) with a 1-byte path.
    pub fn descend_to_byte(&mut self, byte: u8)
        requires
            old(self).wf(),
        ensures
            final(self).moved(old(self), old(self).rel().push(byte)),
    {
        let one = [byte];
        self.descend_to(&one);
        assert(old(self).rel() + one@ =~= old(self).rel().push(byte));
    }

    /// Moves the zipper as [descend_to](Self::descend_to) does, and returns whether the path
    /// exists.
    pub fn descend_to_check(&mut self, path: &[u8]) -> (r: bool)
        requires
            old(self).wf(),
        ensures
            final(self).moved(old(self), old(self).rel() + path@),
            r == look(old(self).here(), path@) is Some,
    {
        self.descend_to(path);
        proof {
            self.lemma_here_below(old(self), path@);
        }
        self.path_exists()
    }

    /// Moves the zipper one byte deeper where that byte leads on, and returns whether it does.
    pub fn descend_to_existing_byte(&mut self, byte: u8) -> (r: bool)
        requires
            old(self).wf(),
        ensures
            r == kids_of(old(self).here()).contains(byte),
            final(self).moved(
                old(self),
                if r {
                    old(self).rel().push(byte)
                } else {
                    old(self).rel()
                },
            ),
    {
        if self.child_mask().test_bit(byte) {
            self.descend_to_byte(byte);
            true
        } else {
            false
        }
    }

    /// Descends the zipper's focus one byte into the child branch of rank `idx`, and returns the
    /// byte.
    ///
    /// `idx` must be within the range `0..child_count()` or this method will do nothing and return
    /// `None`.
    pub fn descend_indexed_byte(&mut self, idx: usize) -> (r: Option<u8>)
        requires
            old(self).wf(),
        ensures
            match r {
                Some(b) => {
                    &&& idx < members(kids_of(old(self).here())).len()
                    &&& b == members(kids_of(old(self).here()))[idx as int]
                    &&& kids_of(old(self).here()).contains(b)
                    &&& final(self).moved(old(self), old(self).rel().push(b))
                },
                None => {
                    &&& idx >= members(kids_of(old(self).here())).len()
                    &&& final(self).moved(old(self), old(self).rel())
                },
            },
    {
        let mask = self.child_mask();
        proof {
            lemma_members(mask@);
        }
        match mask.indexed_bit::<true>(idx) {
            None => None,
            Some(byte) => {
                assert(mask@.contains(byte));
                match self.rest_of_line() {
                    Some(rest) => {
                        proof {
                            if rest@.len() == 0 {
                                self.lemma_line_over();
                            }
                            assert(chain(rest@, self.line_target()).kids.dom() =~= Set::<
                                u8,
                            >::empty().insert(rest@[0]));
                            assert(rest@.subrange(0, 1) =~= seq![byte]);
                            assert(old(self).rel() + seq![byte] =~= old(self).rel().push(byte));
                        }
                        self.advance_line(1);
                    },
                    None => self.enter_child(byte),
                }
                Some(byte)
            },
        }
    }

    /// Descends the zipper's focus one step into the first child branch in a depth-first
    /// traversal, and returns the byte.
    pub fn descend_first_byte(&mut self) -> (r: Option<u8>)
        requires
            old(self).wf(),
        ensures
            match r {
                Some(b) => {
                    &&& crate::utils::bits::is_least(kids_of(old(self).here()), b)
                    &&& final(self).moved(old(self), old(self).rel().push(b))
                },
                None => {
                    &&& kids_of(old(self).here()) == Set::<u8>::empty()
                    &&& final(self).moved(old(self), old(self).rel())
                },
            },
    {
        proof {
            let kids = kids_of(self.here());
            lemma_members(kids);
            lemma_rank_is_len(kids);
            assert forall|c: u8| #[trigger] kids.contains(c) implies members(kids)[0] <= c by {
                assert(members(kids)[rank(kids, c as nat) as int] == c);
            }
        }
        self.descend_indexed_byte(0)
    }

    /// Descends the zipper's focus one step into the last child branch in a depth-first
    /// traversal, and returns the byte.
    pub fn descend_last_byte(&mut self) -> (r: Option<u8>)
        requires
            old(self).wf(),
        ensures
            match r {
                Some(b) => {
                    &&& kids_of(old(self).here()).contains(b)
                    &&& forall|c: u8| #[trigger] kids_of(old(self).here()).contains(c) ==> c <= b
                    &&& final(self).moved(old(self), old(self).rel().push(b))
                },
                None => {
                    &&& kids_of(old(self).here()) == Set::<u8>::empty()
                    &&& final(self).moved(old(self), old(self).rel())
                },
            },
    {
        let count = self.child_count();
        proof {
            let kids = kids_of(self.here());
            lemma_members(kids);
            lemma_rank_is_len(kids);
            assert forall|c: u8| #[trigger] kids.contains(c) implies c <= members(kids)[count - 1] by {
                assert(members(kids)[rank(kids, c as nat) as int] == c);
            }
        }
        if count == 0 {
            None
        } else {
            self.descend_indexed_byte(count - 1)
        }
    }

    /// Descends the zipper's focus until a branch or a value is encountered, and tells the
    /// observer of the bytes. Returns `true` if the focus moved otherwise returns `false`.
    pub fn descend_until_observed<Obs: PathObserver>(&mut self, obs: &mut Obs) -> (r: bool)
        requires
            old(self).wf(),
        ensures
            r == (run_from(old(self).here()).len() > 0),
            final(self).moved(old(self), old(self).rel() + run_from(old(self).here())),
            forall|p: Seq<u8>| #[trigger]
                old(obs).tracks(p) ==> final(obs).tracks(p + run_from(old(self).here())),
    {
        let ghost h0 = self.here();
        let ghost run = run_from(h0);
        let ghost mut done: Seq<u8> = Seq::empty();
        let mut descended = false;
        proof {
            assert(old(self).rel() + done =~= old(self).rel());
            assert forall|p: Seq<u8>| #[trigger] old(obs).tracks(p) implies obs.tracks(p + done) by {
                assert(p + done =~= p);
            }
        }
        if !self.path_exists() {
            return false;
        }
        loop
            invariant_except_break
                run =~= done + if done.len() == 0 || val_of(self.here()) is None {
                    run_below(self.here()->Some_0)
                } else {
                    Seq::empty()
                },
            invariant
                self.wf(),
                self.here() is Some,
                self.moved(old(self), old(self).rel() + done),
                descended == (done.len() > 0),
                forall|p: Seq<u8>| #[trigger] old(obs).tracks(p) ==> obs.tracks(p + done),
            ensures
                run =~= done,
            decreases self.here()->Some_0,
        {
            let ghost before = *self;
            let ghost watched = *obs;
            let ghost t = self.here()->Some_0;
            let mask = self.child_mask();
            let single = mask.count_bits() == 1;
            proof {
                lemma_single(mask@);
                if t.kids.dom() == Set::<u8>::empty().insert(t.link_byte()) {
                    lemma_rank_is_len(mask@);
                    assert(mask@.len() == 1);
                }
            }
            if !single || (descended && self.is_val()) {
                break ;
            }
            let ghost byte = members(mask@)[0];
            proof {
                assert(t.kids.dom() == Set::<u8>::empty().insert(byte));
                assert(t.kids.dom() == Set::<u8>::empty().insert(t.link_byte()));
                assert(Set::<u8>::empty().insert(t.link_byte()).contains(byte));
                assert(Set::<u8>::empty().insert(byte).contains(byte));
            }
            let ghost more: Seq<u8>;
            match self.rest_of_line() {
                Some(rest) => {
                    let ghost end = self.line_target();
                    proof {
                        if rest@.len() == 0 {
                            self.lemma_line_over();
                        }
                        assert(rest@.subrange(0, rest@.len() as int) =~= rest@);
                    }
                    obs.descend_to(rest);
                    self.advance_line(rest.len());
                    proof {
                        more = rest@;
                        self.lemma_here_below(&before, more);
                        lemma_chain_at(rest@, end, rest@.len() as int);
                        assert(rest@.subrange(rest@.len() as int, rest@.len() as int)
                            =~= Seq::<u8>::empty());
                        assert(self.here() == Some(end));
                        lemma_run_chain(rest@, end);
                        lemma_chain_below(rest@, end);
                    }
                },
                None => {
                    let b = mask.indexed_bit::<true>(0).unwrap();
                    obs.descend_to_byte(b);
                    self.enter_child(b);
                    proof {
                        more = seq![b];
                        assert(before.rel().push(b) =~= before.rel() + more);
                        self.lemma_here_below(&before, more);
                        lemma_look_push(before.here(), Seq::empty(), b);
                        assert(look(before.here(), Seq::<u8>::empty()) == before.here());
                        assert(self.here() == Some(t.kids[b]));
                        lemma_run_end(t.kids[b]);
                        assert forall|p: Seq<u8>| #[trigger] watched.tracks(p) implies obs.tracks(
                            p + more,
                        ) by {
                            assert(p.push(b) =~= p + more);
                        }
                    }
                },
            }
            proof {
                let old_done = done;
                done = done + more;
                assert((old(self).rel() + old_done) + more =~= old(self).rel() + done);
                assert forall|p: Seq<u8>| #[trigger] old(obs).tracks(p) implies obs.tracks(
                    p + done,
                ) by {
                    assert(watched.tracks(p + old_done));
                    assert((p + old_done) + more =~= p + done);
                }
            }
            descended = true;
        }
        descended
    }

    /// Descends the zipper's focus until a branch or a value is encountered. Returns `true` if the
    /// focus moved otherwise returns `false`.
    pub fn descend_until(&mut self) -> (r: bool)
        requires
            old(self).wf(),
        ensures
            r == (run_from(old(self).here()).len() > 0),
            final(self).moved(old(self), old(self).rel() + run_from(old(self).here())),
    {
        let mut nobody = ();
        self.descend_until_observed(&mut nobody)
    }

    /// Descends as [descend_until](Self::descend_until) does, but by `max_bytes` at most.
    pub fn descend_until_max_bytes(&mut self, max_bytes: usize) -> (r: bool)
        requires
            old(self).wf(),
        ensures
            ({
                let run = run_from(old(self).here());
                let n = if run.len() <= max_bytes {
                    run.len() as int
                } else {
                    max_bytes as int
                };
                &&& r == (n > 0)
                &&& final(self).moved(old(self), old(self).rel() + run.subrange(0, n))
            }),
    {
        let ghost run = run_from(self.here());
        assert(old(self).rel() + run.subrange(0, 0) =~= old(self).rel());
        if max_bytes == 0 {
            return false;
        }
        let start = self.depth();
        let moved = self.descend_until();
        let descended = self.depth() - start;
        assert(run.subrange(0, run.len() as int) =~= run);
        if descended > max_bytes {
            self.ascend(descended - max_bytes);
            assert(up(old(self).rel() + run, descended - max_bytes) =~= old(self).rel()
                + run.subrange(0, max_bytes as int));
        }
        moved
    }

    /// Ascends the zipper `steps` steps, or to its root where that is closer. Returns the number of
    /// bytes ascended.
    pub fn ascend(&mut self, steps: usize) -> (n: usize)
        requires
            old(self).wf(),
        ensures
            n == if steps <= old(self).rel().len() {
                steps as nat
            } else {
                old(self).rel().len()
            },
            final(self).moved(old(self), up(old(self).rel(), n as int)),
    {
        let mut done = self.ascend_invalid(steps);
        while done < steps && !self.at_root()
            invariant
                done <= steps,
                done <= old(self).rel().len(),
                self.moved(old(self), up(old(self).rel(), done as int)),
                done < steps && done < old(self).rel().len() ==> self.here() is Some,
            decreases steps - done,
        {
            let ghost before = *self;
            let n = self.step_up(steps - done);
            assert(up(up(old(self).rel(), done as int), n as int) =~= up(
                old(self).rel(),
                done + n,
            ));
            done = done + n;
        }
        done
    }

    /// Ascends the zipper up a single byte. Equivalent to passing `1` to [ascend](Self::ascend).
    pub fn ascend_byte(&mut self) -> (r: bool)
        requires
            old(self).wf(),
        ensures
            r == (old(self).rel().len() > 0),
            final(self).moved(
                old(self),
                if r {
                    up(old(self).rel(), 1)
                } else {
                    old(self).rel()
                },
            ),
    {
        let n = self.ascend(1);
        assert(n == 0 ==> up(old(self).rel(), 0) =~= old(self).rel());
        n == 1
    }

    /// Ascends to the nearest place above the focus at which several bytes lead on, or that has a
    /// value where those count, or to the zipper's root.
    fn ascend_to_branch(&mut self, need_value: bool) -> (n: usize)
        requires
            old(self).wf(),
        ensures
            stops_after(old(self).root(), old(self).rel(), n as int, need_value),
            final(self).moved(old(self), up(old(self).rel(), n as int)),
    {
        assert(up(self.rel(), 0) =~= self.rel());
        if self.at_root() {
            return 0;
        }
        let mut done = self.ascend_invalid(usize::MAX);
        proof {
            old(self).lemma_depth();
            lemma_rank_is_len(Set::<u8>::empty());
        }
        if done == 0 {
            done = self.step_up(usize::MAX);
        }
        loop
            invariant
                1 <= done <= old(self).rel().len() <= usize::MAX,
                self.moved(old(self), up(old(self).rel(), done as int)),
                done < old(self).rel().len() ==> self.here() is Some,
                forall|j: int|
                    1 <= j < done ==> !stops(
                        look(old(self).root(), #[trigger] up(old(self).rel(), j)),
                        need_value,
                    ),
            decreases old(self).rel().len() - done,
        {
            if self.at_root() || self.child_count() > 1 || (need_value && self.is_val()) {
                return done;
            }
            let ghost before = *self;
            let n = self.step_up(usize::MAX);
            proof {
                let rel = old(self).rel();
                assert forall|j: int| 0 <= j <= rel.len() - done implies #[trigger] up(
                    up(rel, done as int),
                    j,
                ) == up(rel, done + j) by {
                    assert(up(up(rel, done as int), j) =~= up(rel, done + j));
                }
                assert forall|j: int| 1 <= j < done + n implies !stops(
                    look(old(self).root(), #[trigger] up(rel, j)),
                    need_value,
                ) by {
                    if j > done {
                        assert(up(before.rel(), j - done) == up(rel, j));
                    }
                }
            }
            done = done + n;
        }
    }

    /// Ascends the zipper to the nearest upstream branch point or value. Returns the number of
    /// bytes ascended. Returns `0` if the zipper was already at the root.
    pub fn ascend_until(&mut self) -> (n: usize)
        requires
            old(self).wf(),
        ensures
            stops_after(old(self).root(), old(self).rel(), n as int, true),
            final(self).moved(old(self), up(old(self).rel(), n as int)),
    {
        self.ascend_to_branch(true)
    }

    /// Ascends the zipper to the nearest upstream branch point, skipping over values along the
    /// way. Returns the number of bytes ascended. Returns `0` if the zipper was already at the
    /// root.
    pub fn ascend_until_branch(&mut self) -> (n: usize)
        requires
            old(self).wf(),
        ensures
            stops_after(old(self).root(), old(self).rel(), n as int, false),
            final(self).moved(old(self), up(old(self).rel(), n as int)),
    {
        self.ascend_to_branch(false)
    }

    /// Moves to the place whose last byte is next to that of the focus, among the bytes that lead
    /// on from the place above.
    fn to_sibling(&mut self, next: bool) -> (r: Option<u8>)
        requires
            old(self).wf(),
        ensures
            is_sibling_move(old(self).root(), old(self).rel(), next, r),
            final(self).moved(old(self), sibling_path(old(self).rel(), r)),
    {
        if self.at_root() {
            return None;
        }
        let ghost rel = self.rel();
        let ghost kids = kids_of(look(self.root(), up(rel, 1)));
        if !self.path_exists() {
            // Where the focus does not exist its siblings are still defined by the place above.
            let byte = self.focus_byte().unwrap();
            assert(byte == rel.last());
            self.ascend(1);
            let mask = self.child_mask();
            let target = if next {
                mask.next_bit(byte)
            } else {
                mask.prev_bit(byte)
            };
            return match target {
                Some(t) => {
                    self.descend_to_byte(t);
                    Some(t)
                },
                None => {
                    self.descend_to_byte(byte);
                    assert(up(rel, 1).push(byte) =~= rel);
                    None
                },
            };
        }
        match self.sibling_index(next) {
            None => None,
            Some(idx) => {
                self.ascend(1);
                self.descend_indexed_byte(idx)
            },
        }
    }

    /// Moves the focus to the next sibling byte, and returns it. Where there is none, or at the
    /// zipper's root, the focus stays.
    pub fn to_next_sibling_byte(&mut self) -> (r: Option<u8>)
        requires
            old(self).wf(),
        ensures
            is_sibling_move(old(self).root(), old(self).rel(), true, r),
            final(self).moved(old(self), sibling_path(old(self).rel(), r)),
    {
        self.to_sibling(true)
    }

    /// Moves the focus to the previous sibling byte, and returns it. Where there is none, or at
    /// the zipper's root, the focus stays.
    pub fn to_prev_sibling_byte(&mut self) -> (r: Option<u8>)
        requires
            old(self).wf(),
        ensures
            is_sibling_move(old(self).root(), old(self).rel(), false, r),
            final(self).moved(old(self), sibling_path(old(self).rel(), r)),
    {
        self.to_sibling(false)
    }

    /// Moves the focus to `path`, relative to the zipper's root. Returns the number of bytes that
    /// the old and the new location share.
    pub fn move_to_path(&mut self, path: &[u8]) -> (n: usize)
        requires
            old(self).wf(),
        ensures
            n == overlap(path@, old(self).rel()),
            final(self).moved(old(self), path@),
    {
        let shared = find_prefix_overlap(path, self.path());
        let depth = self.depth();
        proof {
            lemma_overlap(path@, self.rel());
        }
        self.ascend(depth - shared);
        self.descend_to(part(path, shared, path.len()));
        assert(up(old(self).rel(), depth - shared) + path@.subrange(
            shared as int,
            path@.len() as int,
        ) =~= path@);
        shared
    }

    /// A new zipper whose root is the focus of this one.
    pub fn fork_read_zipper(&self) -> (r: Self)
        requires
            self.wf(),
        ensures
            r.wf(),
            r.whole() == self.whole(),
            r.origin() == self.origin() + self.rel(),
            r.rel() == Seq::<u8>::empty(),
            r.root() == self.here(),
    {
        proof {
            crate::trie::lemma_at_concat(self.whole(), self.origin(), self.rel());
        }
        self.clone().with_root_here()
    }
}

/// The bytes that lead on without a choice from a place, up to the first value below.
pub open spec fn run_from(r: Option<Trie<u64>>) -> Seq<u8> {
    match r {
        Some(t) => run_below(t),
        None => Seq::empty(),
    }
}

/// Going up from `rel`, the first place to stop at is `n` bytes up: a branch, or a value where
/// those count, or the root.
pub open spec fn stops_after(r: Option<Trie<u64>>, rel: Seq<u8>, n: int, need_value: bool) -> bool {
    if rel.len() == 0 {
        n == 0
    } else {
        &&& 1 <= n <= rel.len()
        &&& n == rel.len() || stops(look(r, up(rel, n)), need_value)
        &&& forall|j: int| 1 <= j < n ==> !stops(look(r, #[trigger] up(rel, j)), need_value)
    }
}

/// `b` is the byte next to the last of `rel` among those that lead on from the place above.
pub open spec fn is_sibling_move(
    r: Option<Trie<u64>>,
    rel: Seq<u8>,
    next: bool,
    b: Option<u8>,
) -> bool {
    if rel.len() == 0 {
        b is None
    } else {
        is_neighbour(kids_of(look(r, up(rel, 1))), rel.last(), next, b)
    }
}

/// The path with the last byte replaced, where there is a byte to replace it by.
pub open spec fn sibling_path(rel: Seq<u8>, b: Option<u8>) -> Seq<u8> {
    match b {
        Some(b) => up(rel, 1).push(b),
        None => rel,
    }
}

/// The bytes of `path` from `from` on, `n` of them, follow on those before.
proof fn lemma_step_path(rel: Seq<u8>, path: Seq<u8>, from: int, n: int)
    requires
        0 <= from <= from + n <= path.len(),
    ensures
        (rel + path.subrange(0, from)) + path.subrange(from, path.len() as int).subrange(0, n)
            == rel + path.subrange(0, from + n),
{
    assert((rel + path.subrange(0, from)) + path.subrange(from, path.len() as int).subrange(0, n)
        =~= rel + path.subrange(0, from + n));
}

/// The end of a chain is below it.
proof fn lemma_chain_below<V>(line: Seq<u8>, t: Trie<V>)
    requires
        line.len() > 0,
    ensures
        decreases_to!(chain(line, t) => t),
    decreases line.len(),
{
    let c = chain(line, t);
    let l1 = line.drop_first();
    assert(c.kids.contains_key(line[0]));
    assert(c.kids[line[0]] == chain(l1, t));
    assert(decreases_to!(c => c.kids[line[0]]));
    if l1.len() > 0 {
        lemma_chain_below(l1, t);
    }
}

} // verus!
