use vstd::prelude::*;

use crate::grid::Grid;
use crate::map::is_wall;
use crate::map::TileMap;
use crate::position::Position;
use crate::shadow;
use crate::tile::Tile;
use vstd::string::StringSliceAdditionalSpecFns;

verus! {

/// One floor of the tower: a name and its maps.
pub struct Level {
    pub name: String,
    pub maps: Vec<TileMap>,
}

/// The string-keyed registry of levels and maps the scene layer addresses
/// the engines through. Kept as association lists with unique names; lookup
/// is by name equality.
pub struct Tower {
    pub levels: Vec<Level>,
}

/// Whether some level carries the name.
pub open spec fn has_level(levels: Seq<Level>, nm: Seq<char>) -> bool {
    exists|i: int| 0 <= i < levels.len() && levels[i].name@ == nm
}

/// The index of the level with that name (meaningful under `has_level` and
/// name uniqueness).
pub open spec fn level_idx(levels: Seq<Level>, nm: Seq<char>) -> int {
    choose|i: int| 0 <= i < levels.len() && levels[i].name@ == nm
}

/// Whether some map of the level carries the name.
pub open spec fn has_map(maps: Seq<TileMap>, nm: Seq<char>) -> bool {
    exists|i: int| 0 <= i < maps.len() && maps[i].name@ == nm
}

/// The index of the map with that name.
pub open spec fn map_idx(maps: Seq<TileMap>, nm: Seq<char>) -> int {
    choose|i: int| 0 <= i < maps.len() && maps[i].name@ == nm
}

impl Level {
    /// Map names are unique and every grid is well-formed and addressable.
    pub open spec fn wf(&self) -> bool {
        &&& forall|a: int, b: int|
            0 <= a < b < self.maps@.len() ==> (#[trigger] self.maps@[a]).name@
                != (#[trigger] self.maps@[b]).name@
        &&& forall|m: int|
            0 <= m < self.maps@.len() ==> (#[trigger] self.maps@[m]).grid.wf()
                && self.maps@[m].grid.width <= i32::MAX && self.maps@[m].grid.height
                <= i32::MAX
    }
}

impl Tower {
    /// Level names are unique and every level is well-formed.
    pub open spec fn wf(&self) -> bool {
        &&& forall|a: int, b: int|
            0 <= a < b < self.levels@.len() ==> (#[trigger] self.levels@[a]).name@
                != (#[trigger] self.levels@[b]).name@
        &&& forall|i: int| 0 <= i < self.levels@.len() ==> (#[trigger] self.levels@[i]).wf()
    }

    /// An empty tower.
    pub fn new() -> (r: Self)
        ensures
            r.wf(),
            r.levels@.len() == 0,
    {
        Tower { levels: Vec::new() }
    }

    /// The tile at `pos` of the named map, absent when the level, the map or
    /// the position is unknown.
    pub fn get_tile(&self, level: &str, map: &str, pos: &Position) -> (r: Option<&Tile>)
        requires
            self.wf(),
        ensures
            r.is_some() <==> has_level(self.levels@, level@) && {
                let lv = self.levels@[level_idx(self.levels@, level@)];
                has_map(lv.maps@, map@) && {
                    let m = lv.maps@[map_idx(lv.maps@, map@)];
                    m.grid.spec_in_bounds(*pos)
                }
            },
            r matches Some(t) ==> {
                let lv = self.levels@[level_idx(self.levels@, level@)];
                let m = lv.maps@[map_idx(lv.maps@, map@)];
                *t == m.grid@[m.grid.spec_index_of(*pos)]
            },
    {
        let li = match self.find_level(level) {
            Some(li) => li,
            None => {
                return None;
            },
        };
        let lv = &self.levels[li];
        let mi = match Self::find_map(&lv.maps, map) {
            Some(mi) => mi,
            None => {
                return None;
            },
        };
        self.levels[li].maps[mi].grid.get(pos)
    }

    /// Mutable access to a tile that is known to exist: the level, map and
    /// position must all be present. Callers check with `get_tile` first; a
    /// borrowed tile cannot be optional.
    pub fn get_tile_mut(&mut self, level: &str, map: &str, pos: &Position) -> (r: &mut Tile)
        requires
            old(self).wf(),
            has_level(old(self).levels@, level@),
            has_map(
                old(self).levels@[level_idx(old(self).levels@, level@)].maps@,
                map@,
            ),
            old(self).levels@[level_idx(old(self).levels@, level@)].maps@[map_idx(
                old(self).levels@[level_idx(old(self).levels@, level@)].maps@,
                map@,
            )].grid.spec_in_bounds(*pos),
        ensures
            ({
                let li = level_idx(old(self).levels@, level@);
                let lv = old(self).levels@[li];
                let mi = map_idx(lv.maps@, map@);
                let m = lv.maps@[mi];
                &&& *r == m.grid@[m.grid.spec_index_of(*pos)]
                &&& final(self).levels@.len() == old(self).levels@.len()
                &&& forall|i: int|
                    0 <= i < old(self).levels@.len() && i != li ==> final(self).levels@[i]
                        == old(self).levels@[i]
                &&& final(self).levels@[li].name == lv.name
                &&& final(self).levels@[li].maps@.len() == lv.maps@.len()
                &&& forall|j: int|
                    0 <= j < lv.maps@.len() && j != mi ==> final(self).levels@[li].maps@[j]
                        == lv.maps@[j]
                &&& final(self).levels@[li].maps@[mi].name == m.name
                &&& final(self).levels@[li].maps@[mi].grid.width == m.grid.width
                &&& final(self).levels@[li].maps@[mi].grid.height == m.grid.height
                &&& final(self).levels@[li].maps@[mi].grid@ == m.grid@.update(
                    m.grid.spec_index_of(*pos),
                    *final(r),
                )
                &&& final(self).wf()
            }),
    {
        let li = self.find_level(level).unwrap();
        proof {
            let ghost lio = level_idx(old(self).levels@, level@);
            if li != lio {
                assert(self.levels@[li as int].name@ == self.levels@[lio].name@);
            }
        }
        let lv = &mut self.levels[li];
        let mi = Self::find_map(&lv.maps, map).unwrap();
        proof {
            let ghost mio = map_idx(old(self).levels@[li as int].maps@, map@);
            if mi != mio {
                assert(lv.maps@[mi as int].name@ == lv.maps@[mio].name@);
            }
        }
        let m = &mut lv.maps[mi];
        m.grid.get_mut(pos)
    }

    /// Finds the index of the named level.
    fn find_level(&self, level: &str) -> (r: Option<usize>)
        requires
            self.wf(),
        ensures
            r matches Some(i) ==> i < self.levels@.len() && self.levels@[i as int].name@
                == level@,
            r.is_some() <==> has_level(self.levels@, level@),
            r matches Some(i) ==> i == level_idx(self.levels@, level@),
    {
        let key: String = level.to_owned();
        let n = self.levels.len();
        let mut i: usize = 0;
        while i < n
            invariant
                self.wf(),
                i <= n,
                n == self.levels@.len(),
                key@ == level@,
                forall|j: int| 0 <= j < i ==> (#[trigger] self.levels@[j]).name@ != level@,
            decreases n - i,
        {
            if String::eq(&self.levels[i].name, &key) {
                proof {
                    let w = level_idx(self.levels@, level@);
                    if w != i {
                        assert(self.levels@[w].name@ == level@);
                    }
                }
                return Some(i);
            }
            i = i + 1;
        }
        None
    }

    /// Finds the index of the named map.
    fn find_map(maps: &Vec<TileMap>, map: &str) -> (r: Option<usize>)
        requires
            forall|a: int, b: int|
                0 <= a < b < maps@.len() ==> (#[trigger] maps@[a]).name@ != (
                #[trigger] maps@[b]).name@,
        ensures
            r matches Some(i) ==> i < maps@.len() && maps@[i as int].name@ == map@,
            r.is_some() <==> has_map(maps@, map@),
            r matches Some(i) ==> i == map_idx(maps@, map@),
    {
        let key: String = map.to_owned();
        let n = maps.len();
        let mut i: usize = 0;
        while i < n
            invariant
                forall|a: int, b: int|
                    0 <= a < b < maps@.len() ==> (#[trigger] maps@[a]).name@ != (
                    #[trigger] maps@[b]).name@,
                i <= n,
                n == maps@.len(),
                key@ == map@,
                forall|j: int| 0 <= j < i ==> (#[trigger] maps@[j]).name@ != map@,
            decreases n - i,
        {
            if String::eq(&maps[i].name, &key) {
                proof {
                    let w = map_idx(maps@, map@);
                    if w != i {
                        assert(maps@[w].name@ == map@);
                    }
                }
                return Some(i);
            }
            i = i + 1;
        }
        None
    }

    /// Installs `m` as the named map of the named level: an existing map of
    /// that name is replaced, a missing level is created.
    fn insert_map(&mut self, level: &str, m: TileMap)
        requires
            old(self).wf(),
            m.grid.wf(),
            m.grid.width <= i32::MAX,
            m.grid.height <= i32::MAX,
        ensures
            final(self).wf(),
            has_level(final(self).levels@, level@),
            ({
                let li = level_idx(final(self).levels@, level@);
                let lv = final(self).levels@[li];
                has_map(lv.maps@, m.name@) && lv.maps@[map_idx(lv.maps@, m.name@)] == m
            }),
            forall|i: int|
                0 <= i < old(self).levels@.len() && (#[trigger] old(self).levels@[i]).name@
                    != level@ ==> has_level(final(self).levels@, old(self).levels@[i].name@)
                    && final(self).levels@[level_idx(
                    final(self).levels@,
                    old(self).levels@[i].name@,
                )] == old(self).levels@[i],
            has_level(old(self).levels@, level@) ==> ({
                let olv = old(self).levels@[level_idx(old(self).levels@, level@)];
                let nlv = final(self).levels@[level_idx(final(self).levels@, level@)];
                forall|j: int|
                    0 <= j < olv.maps@.len() && (#[trigger] olv.maps@[j]).name@ != m.name@
                        ==> has_map(nlv.maps@, olv.maps@[j].name@) && nlv.maps@[map_idx(
                        nlv.maps@,
                        olv.maps@[j].name@,
                    )] == olv.maps@[j]
            }),
            final(self).levels@.len() == old(self).levels@.len() + (if has_level(
                old(self).levels@,
                level@,
            ) {
                0int
            } else {
                1
            }),
            forall|i: int|
                0 <= i < final(self).levels@.len() ==> (#[trigger] (final(self).levels@[i])).name@
                    == level@ || has_level(old(self).levels@, final(self).levels@[i].name@),
            has_level(old(self).levels@, level@) ==> ({
                let olv = old(self).levels@[level_idx(old(self).levels@, level@)];
                let nlv = final(self).levels@[level_idx(final(self).levels@, level@)];
                &&& nlv.maps@.len() == olv.maps@.len() + (if has_map(olv.maps@, m.name@) {
                    0int
                } else {
                    1
                })
                &&& forall|j: int|
                    0 <= j < nlv.maps@.len() ==> (#[trigger] nlv.maps@[j]).name@ == m.name@
                        || has_map(olv.maps@, nlv.maps@[j].name@)
            }),
            !has_level(old(self).levels@, level@) ==> final(self).levels@[level_idx(
                final(self).levels@,
                level@,
            )].maps@.len() == 1,
    {
        let found = self.find_level(level);
        match found {
            Some(li) => {
                let ghost old_levels = self.levels@;
                let ghost old_lv = self.levels@[li as int];
                let ghost m_ghost = m;
                let mname = m.name.as_str();
                let fm = {
                    let lvr = &self.levels[li];
                    Self::find_map(&lvr.maps, mname)
                };
                match fm {
                    Some(mi) => {
                        let lv = &mut self.levels[li];
                        let slot = &mut lv.maps[mi];
                        *slot = m;
                        proof {
                            let cur = self.levels@[li as int];
                            assert(cur.maps@ =~= old_lv.maps@.update(mi as int, m_ghost));
                            assert(old_lv.maps@[mi as int].name@ == m_ghost.name@);
                            assert forall|a: int, b: int|
                                0 <= a < b < cur.maps@.len() implies (#[trigger] cur.maps@[a]).name@
                                != (#[trigger] cur.maps@[b]).name@ by {
                                assert(old_lv.maps@[a].name@ != old_lv.maps@[b].name@);
                            }
                            assert forall|mm: int|
                                0 <= mm < cur.maps@.len() implies (#[trigger] cur.maps@[mm]).grid.wf()
                                && cur.maps@[mm].grid.width <= i32::MAX && cur.maps@[mm].grid.height
                                <= i32::MAX by {
                                if mm != mi {
                                    assert(cur.maps@[mm] == old_lv.maps@[mm]);
                                }
                            }
                            assert(cur.wf());
                            assert(cur.maps@[mi as int] == m_ghost);
                            assert(has_map(cur.maps@, m_ghost.name@));
                            let w = map_idx(cur.maps@, m_ghost.name@);
                            if w != mi {
                                assert(cur.maps@[w].name@ == m_ghost.name@);
                            }
                            assert(cur.maps@[map_idx(cur.maps@, m_ghost.name@)] == m_ghost);
                        }
                    },
                    None => {
                        let lv = &mut self.levels[li];
                        lv.maps.push(m);
                        proof {
                            let cur = self.levels@[li as int];
                            let nmaps = cur.maps@.len();
                            assert(cur.maps@ =~= old_lv.maps@.push(m_ghost));
                            assert(cur.maps@[nmaps - 1] == m_ghost);
                            assert forall|a: int, b: int|
                                0 <= a < b < nmaps implies (#[trigger] cur.maps@[a]).name@
                                != (#[trigger] cur.maps@[b]).name@ by {
                                if b < nmaps - 1 {
                                    assert(cur.maps@[a] == old_lv.maps@[a]);
                                    assert(cur.maps@[b] == old_lv.maps@[b]);
                                } else {
                                    assert(cur.maps@[a] == old_lv.maps@[a]);
                                    assert(old_lv.maps@[a].name@ != m_ghost.name@);
                                }
                            }
                            assert forall|mm: int|
                                0 <= mm < nmaps implies (#[trigger] cur.maps@[mm]).grid.wf()
                                && cur.maps@[mm].grid.width <= i32::MAX && cur.maps@[mm].grid.height
                                <= i32::MAX by {
                                if mm != nmaps - 1 {
                                    assert(cur.maps@[mm] == old_lv.maps@[mm]);
                                }
                            }
                            assert(cur.wf());
                            assert(has_map(cur.maps@, m_ghost.name@));
                            let w = map_idx(cur.maps@, m_ghost.name@);
                            if w != nmaps - 1 {
                                assert(cur.maps@[w].name@ == m_ghost.name@);
                                assert(cur.maps@[w] == old_lv.maps@[w]);
                            }
                            assert(cur.maps@[map_idx(cur.maps@, m_ghost.name@)] == m_ghost);
                        }
                    },
                }
                proof {
                    self.lemma_after_level_update(old_levels, li as int, level@, m_ghost);
                    let lj = level_idx(self.levels@, level@);
                    if lj != li {
                        assert(self.levels@[lj].name@ == level@);
                        if lj < old_levels.len() && lj != li {
                            assert(self.levels@[lj] == old_levels[lj as int]);
                        }
                    }
                    assert(lj == li);
                    let cur = self.levels@[li as int];
                    assert forall|j: int|
                        0 <= j < old_lv.maps@.len() && (#[trigger] old_lv.maps@[j]).name@
                            != m_ghost.name@ implies has_map(cur.maps@, old_lv.maps@[j].name@)
                        && cur.maps@[map_idx(cur.maps@, old_lv.maps@[j].name@)] == old_lv.maps@[j] by {
                        assert(cur.maps@[j] == old_lv.maps@[j]);
                        assert(has_map(cur.maps@, old_lv.maps@[j].name@));
                        let w = map_idx(cur.maps@, old_lv.maps@[j].name@);
                        if w != j {
                            assert(cur.maps@[w].name@ == old_lv.maps@[j].name@);
                        }
                    }
                }
            },
            None => {
                let ghost old_levels = self.levels@;
                let ghost m_ghost = m;
                let mut maps: Vec<TileMap> = Vec::new();
                maps.push(m);
                let key: String = level.to_owned();
                self.levels.push(Level { name: key, maps });
                proof {
                    let n = self.levels@.len();
                    assert(self.levels@[n - 1].name@ == level@);
                    assert(has_level(self.levels@, level@));
                    assert forall|a: int, b: int|
                        0 <= a < b < n implies (#[trigger] self.levels@[a]).name@
                        != (#[trigger] self.levels@[b]).name@ by {
                        if b < n - 1 {
                            assert(self.levels@[a] == old_levels[a]);
                            assert(self.levels@[b] == old_levels[b]);
                        } else {
                            assert(self.levels@[a] == old_levels[a]);
                            assert(old_levels[a].name@ != level@);
                        }
                    }
                    assert forall|i: int|
                        0 <= i < n implies (#[trigger] self.levels@[i]).wf() by {
                        if i < n - 1 {
                            assert(self.levels@[i] == old_levels[i]);
                        } else {
                            let cur = self.levels@[n - 1];
                            assert(cur.maps@.len() == 1);
                            assert(cur.maps@[0] == m_ghost);
                        }
                    }
                    let li = level_idx(self.levels@, level@);
                    if li != n - 1 {
                        assert(self.levels@[li].name@ == level@);
                        assert(old_levels[li].name@ == level@);
                    }
                    assert(self.levels@[li].maps@[0] == m_ghost);
                    assert(has_map(self.levels@[li].maps@, m_ghost.name@));
                    let mi = map_idx(self.levels@[li].maps@, m_ghost.name@);
                    assert(self.levels@[li].maps@.len() == 1);
                    assert(mi == 0);
                    assert forall|i: int|
                        0 <= i < old_levels.len() && (#[trigger] old_levels[i]).name@ != level@
                            implies has_level(self.levels@, old_levels[i].name@) && self.levels@[level_idx(
                        self.levels@,
                        old_levels[i].name@,
                    )] == old_levels[i] by {
                        assert(self.levels@[i] == old_levels[i]);
                        assert(has_level(self.levels@, old_levels[i].name@));
                        let w = level_idx(self.levels@, old_levels[i].name@);
                        if w != i {
                            assert(self.levels@[w].name@ == old_levels[i].name@);
                        }
                    }
                }
            },
        }
    }

    /// What holds after replacing or extending the maps of level `li`.
    proof fn lemma_after_level_update(&self, old_levels: Seq<Level>, li: int, nm: Seq<char>, m: TileMap)
        requires
            0 <= li < old_levels.len(),
            self.levels@.len() == old_levels.len(),
            forall|i: int| 0 <= i < old_levels.len() && i != li ==> self.levels@[i] == old_levels[i],
            self.levels@[li].name == old_levels[li].name,
            old_levels[li].name@ == nm,
            forall|a: int, b: int|
                0 <= a < b < old_levels.len() ==> (#[trigger] old_levels[a]).name@ != (
                #[trigger] old_levels[b]).name@,
            forall|i: int| 0 <= i < old_levels.len() ==> (#[trigger] old_levels[i]).wf(),
            self.levels@[li].wf(),
            has_map(self.levels@[li].maps@, m.name@),
            self.levels@[li].maps@[map_idx(self.levels@[li].maps@, m.name@)] == m,
        ensures
            self.wf(),
            has_level(self.levels@, nm),
            ({
                let lj = level_idx(self.levels@, nm);
                let lv = self.levels@[lj];
                has_map(lv.maps@, m.name@) && lv.maps@[map_idx(lv.maps@, m.name@)] == m
            }),
            forall|i: int|
                0 <= i < old_levels.len() && (#[trigger] old_levels[i]).name@ != nm ==> has_level(
                    self.levels@,
                    old_levels[i].name@,
                ) && self.levels@[level_idx(self.levels@, old_levels[i].name@)] == old_levels[i],
    {
        assert(self.levels@[li].name@ == nm);
        assert(has_level(self.levels@, nm));
        assert forall|a: int, b: int|
            0 <= a < b < self.levels@.len() implies (#[trigger] self.levels@[a]).name@
            != (#[trigger] self.levels@[b]).name@ by {
            if a != li {
                assert(self.levels@[a] == old_levels[a]);
            }
            if b != li {
                assert(self.levels@[b] == old_levels[b]);
            }
            assert(old_levels[a].name@ != old_levels[b].name@);
        }
        assert forall|i: int| 0 <= i < self.levels@.len() implies (#[trigger] self.levels@[i]).wf() by {
            if i != li {
                assert(self.levels@[i] == old_levels[i]);
            }
        }
        let lj = level_idx(self.levels@, nm);
        if lj != li {
            assert(self.levels@[lj].name@ == nm);
            assert(old_levels[lj].name@ == nm);
        }
        assert forall|i: int|
            0 <= i < old_levels.len() && (#[trigger] old_levels[i]).name@ != nm implies has_level(
            self.levels@,
            old_levels[i].name@,
        ) && self.levels@[level_idx(self.levels@, old_levels[i].name@)] == old_levels[i] by {
            assert(i != li);
            assert(self.levels@[i] == old_levels[i]);
            assert(has_level(self.levels@, old_levels[i].name@));
            let w = level_idx(self.levels@, old_levels[i].name@);
            if w != i {
                assert(self.levels@[w].name@ == old_levels[i].name@);
                if w == li {
                } else {
                    assert(old_levels[w].name@ == old_levels[i].name@);
                }
            }
        }
    }

    /// Creates (or replaces) the named map with a fresh default grid.
    pub fn insert_empty_map(&mut self, level_name: &str, map_name: &str, width: usize, height: usize)
        requires
            old(self).wf(),
            width * height <= usize::MAX,
            width <= i32::MAX,
            height <= i32::MAX,
        ensures
            final(self).wf(),
            has_level(final(self).levels@, level_name@),
            ({
                let lv = final(self).levels@[level_idx(final(self).levels@, level_name@)];
                has_map(lv.maps@, map_name@) && {
                    let m = lv.maps@[map_idx(lv.maps@, map_name@)];
                    &&& m.grid.wf()
                    &&& m.grid.width == width
                    &&& m.grid.height == height
                    &&& forall|p: Position|
                        m.grid.spec_in_bounds(p) ==> (#[trigger] m.grid@[m.grid.spec_index_of(
                            p,
                        )]).walkable && m.grid@[m.grid.spec_index_of(p)].transparent
                }
            }),
            forall|i: int|
                0 <= i < old(self).levels@.len() && (#[trigger] old(self).levels@[i]).name@
                    != level_name@ ==> has_level(final(self).levels@, old(self).levels@[i].name@)
                    && final(self).levels@[level_idx(
                    final(self).levels@,
                    old(self).levels@[i].name@,
                )] == old(self).levels@[i],
            has_level(old(self).levels@, level_name@) ==> ({
                let olv = old(self).levels@[level_idx(old(self).levels@, level_name@)];
                let nlv = final(self).levels@[level_idx(final(self).levels@, level_name@)];
                forall|j: int|
                    0 <= j < olv.maps@.len() && (#[trigger] olv.maps@[j]).name@ != map_name@
                        ==> has_map(nlv.maps@, olv.maps@[j].name@) && nlv.maps@[map_idx(
                        nlv.maps@,
                        olv.maps@[j].name@,
                    )] == olv.maps@[j]
            }),
            final(self).levels@.len() == old(self).levels@.len() + (if has_level(
                old(self).levels@,
                level_name@,
            ) {
                0int
            } else {
                1
            }),
            forall|i: int|
                0 <= i < final(self).levels@.len() ==> (#[trigger] (final(self).levels@[i])).name@
                    == level_name@ || has_level(old(self).levels@, final(self).levels@[i].name@),
            has_level(old(self).levels@, level_name@) ==> ({
                let olv = old(self).levels@[level_idx(old(self).levels@, level_name@)];
                let nlv = final(self).levels@[level_idx(final(self).levels@, level_name@)];
                &&& nlv.maps@.len() == olv.maps@.len() + (if has_map(olv.maps@, map_name@) {
                    0int
                } else {
                    1
                })
                &&& forall|j: int|
                    0 <= j < nlv.maps@.len() ==> (#[trigger] (nlv.maps@[j])).name@ == map_name@
                        || has_map(olv.maps@, nlv.maps@[j].name@)
            }),
            !has_level(old(self).levels@, level_name@) ==> final(self).levels@[level_idx(
                final(self).levels@,
                level_name@,
            )].maps@.len() == 1,
    {
        let m = TileMap::new(map_name, width, height);
        self.insert_map(level_name, m);
    }

    /// Parses the text and installs it as the named map (see
    /// `TileMap::from_str`).
    pub fn insert_map_from_str(
        &mut self,
        level_name: &str,
        map_name: &str,
        width: usize,
        height: usize,
        s: &str,
    )
        requires
            old(self).wf(),
            width * height <= usize::MAX,
            width <= i32::MAX,
            height <= i32::MAX,
            s.spec_bytes().len() < usize::MAX,
        ensures
            final(self).wf(),
            has_level(final(self).levels@, level_name@),
            ({
                let lv = final(self).levels@[level_idx(final(self).levels@, level_name@)];
                has_map(lv.maps@, map_name@) && {
                    let m = lv.maps@[map_idx(lv.maps@, map_name@)];
                    &&& m.grid.wf()
                    &&& m.grid.width == width
                    &&& m.grid.height == height
                    &&& forall|p: Position|
                        m.grid.spec_in_bounds(p) ==> {
                            let w = is_wall(s.spec_bytes(), p.x as int, p.y as int);
                            let c = #[trigger] m.grid@[m.grid.spec_index_of(p)];
                            c.walkable == !w && c.transparent == !w
                        }
                }
            }),
            forall|i: int|
                0 <= i < old(self).levels@.len() && (#[trigger] old(self).levels@[i]).name@
                    != level_name@ ==> has_level(final(self).levels@, old(self).levels@[i].name@)
                    && final(self).levels@[level_idx(
                    final(self).levels@,
                    old(self).levels@[i].name@,
                )] == old(self).levels@[i],
            has_level(old(self).levels@, level_name@) ==> ({
                let olv = old(self).levels@[level_idx(old(self).levels@, level_name@)];
                let nlv = final(self).levels@[level_idx(final(self).levels@, level_name@)];
                forall|j: int|
                    0 <= j < olv.maps@.len() && (#[trigger] olv.maps@[j]).name@ != map_name@
                        ==> has_map(nlv.maps@, olv.maps@[j].name@) && nlv.maps@[map_idx(
                        nlv.maps@,
                        olv.maps@[j].name@,
                    )] == olv.maps@[j]
            }),
            final(self).levels@.len() == old(self).levels@.len() + (if has_level(
                old(self).levels@,
                level_name@,
            ) {
                0int
            } else {
                1
            }),
            forall|i: int|
                0 <= i < final(self).levels@.len() ==> (#[trigger] (final(self).levels@[i])).name@
                    == level_name@ || has_level(old(self).levels@, final(self).levels@[i].name@),
            has_level(old(self).levels@, level_name@) ==> ({
                let olv = old(self).levels@[level_idx(old(self).levels@, level_name@)];
                let nlv = final(self).levels@[level_idx(final(self).levels@, level_name@)];
                &&& nlv.maps@.len() == olv.maps@.len() + (if has_map(olv.maps@, map_name@) {
                    0int
                } else {
                    1
                })
                &&& forall|j: int|
                    0 <= j < nlv.maps@.len() ==> (#[trigger] (nlv.maps@[j])).name@ == map_name@
                        || has_map(olv.maps@, nlv.maps@[j].name@)
            }),
            !has_level(old(self).levels@, level_name@) ==> final(self).levels@[level_idx(
                final(self).levels@,
                level_name@,
            )].maps@.len() == 1,
    {
        let m = TileMap::from_str(map_name, width, height, s);
        self.insert_map(level_name, m);
    }

    /// The set of positions visible from `origin` on the named map, or
    /// nothing when the level or map is unknown (see `shadow::get_visible`).
    pub fn get_visible(&self, level_name: &str, map_name: &str, origin: &Position) -> (r: Vec<
        Position,
    >)
        requires
            self.wf(),
        ensures
            (has_level(self.levels@, level_name@) && has_map(
                self.levels@[level_idx(self.levels@, level_name@)].maps@,
                map_name@,
            )) ==> {
                let lv = self.levels@[level_idx(self.levels@, level_name@)];
                let m = lv.maps@[map_idx(lv.maps@, map_name@)];
                shadow::vec_set(r@) == shadow::visible_spec(m.grid, *origin)
                    && shadow::distinct_seq(r@) && r@.contains(*origin)
            },
            !(has_level(self.levels@, level_name@) && has_map(
                self.levels@[level_idx(self.levels@, level_name@)].maps@,
                map_name@,
            )) ==> r@.len() == 0,
    {
        let li = match self.find_level(level_name) {
            Some(li) => li,
            None => {
                return Vec::new();
            },
        };
        let lv = &self.levels[li];
        let mi = match Self::find_map(&lv.maps, map_name) {
            Some(mi) => mi,
            None => {
                return Vec::new();
            },
        };
        self.levels[li].maps[mi].get_visible(origin)
    }
}

} // verus!
