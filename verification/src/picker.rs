//! The choices a user makes before a search runs: which map and variant,
//! which engine, which diagonal policy, which heuristic. Each picker is a
//! cursor over a list that moves on key presses and settles on `Return`.

use vstd::prelude::*;
use crate::algo::{Algo, Algorithm};
use crate::diagonal::Diagonal;
use crate::engines::{playable, poses, Engine};
use crate::heuristic::Heuristic;
use crate::maps::GridMap;
use crate::search::initial;

verus! {

/// The keys that the scenes react to.
#[derive(Debug, Clone, Copy, PartialEq, Eq, Structural)]
pub enum Key {
    Up,
    Down,
    Left,
    Right,
    Return,
    Space,
    P,
    /// One of the digit keys, with its digit.
    Number(usize),
    Other,
}

/// Whether the key is a digit key.
pub fn is_keycode_a_number(key: Key) -> (yes: bool)
    ensures
        yes == key is Number,
{
    match key {
        Key::Number(_) => true,
        _ => false,
    }
}

/// The digit of a digit key.
pub fn keycode_to_num(key: Key) -> (n: usize)
    requires
        key is Number,
    ensures
        key == Key::Number(n),
{
    match key {
        Key::Number(n) => n,
        _ => 0,
    }
}

/// What one stage of the choosing hands to the next.
#[allow(inconsistent_fields)]
pub enum SceneParams {
    AlgoSelection { map: usize, variant: usize },
    DiagonalSelection { algo: Algo, variant: usize },
    HeuristicSelection { algo: Algo, diagonal: Diagonal, variant: usize },
    AlgoRunner {
        algo: Engine,
        algo_name: String,
        diagonal: Diagonal,
        heuristic: Heuristic,
        variant: usize,
    },
    Empty,
}

/// A cursor over a list of `len` entries, and the entry settled on, if any.
#[derive(Debug, Clone, Copy, PartialEq, Eq, Structural)]
pub struct Cursor {
    pub len: usize,
    pub highlighted: usize,
    pub selected: Option<usize>,
}

impl Cursor {
    /// The cursor after a key went down: `Up` and `Down` move it by one
    /// entry and stop at the ends of the list; other keys leave it.
    pub open spec fn pressed(self, key: Key) -> Cursor {
        match key {
            Key::Up => if self.highlighted > 0 {
                Cursor { highlighted: (self.highlighted - 1) as usize, ..self }
            } else {
                self
            },
            Key::Down => if self.highlighted + 1 < self.len {
                Cursor { highlighted: (self.highlighted + 1) as usize, ..self }
            } else {
                self
            },
            _ => self,
        }
    }

    /// The cursor after a key came up: `Return` settles on the highlighted
    /// entry; other keys leave it.
    pub open spec fn released(self, key: Key) -> Cursor {
        match key {
            Key::Return => Cursor { selected: Some(self.highlighted), ..self },
            _ => self,
        }
    }

    /// The cursor points into the list, and so does what it settled on.
    /// Key presses keep it so.
    pub open spec fn wf(self) -> bool {
        &&& self.highlighted < self.len
        &&& match self.selected {
            Some(i) => i < self.len,
            None => true,
        }
    }

    pub fn new(len: usize, highlighted: usize) -> (cursor: Cursor)
        ensures
            cursor == (Cursor { len, highlighted, selected: None }),
    {
        Cursor { len, highlighted, selected: None }
    }

    pub fn on_button_down(&mut self, key: Key)
        ensures
            *final(self) == old(self).pressed(key),
            old(self).wf() ==> final(self).wf(),
    {
        match key {
            Key::Up => {
                if self.highlighted > 0 {
                    self.highlighted -= 1;
                }
            },
            Key::Down => {
                if self.len > 0 && self.highlighted < self.len - 1 {
                    self.highlighted += 1;
                }
            },
            _ => {},
        }
    }

    pub fn on_button_up(&mut self, key: Key)
        ensures
            *final(self) == old(self).released(key),
            old(self).wf() ==> final(self).wf(),
    {
        match key {
            Key::Return => {
                self.selected = Some(self.highlighted);
            },
            _ => {},
        }
    }

    pub fn is_complete(&self) -> (done: bool)
        ensures
            done == self.selected is Some,
    {
        self.selected.is_some()
    }
}

/// Picks the engine.
#[derive(Debug, Clone, Copy, PartialEq, Eq, Structural)]
pub struct AlgoPicker {
    pub variant: usize,
    pub cursor: Cursor,
}

impl AlgoPicker {
    /// A picker over the engines for the chosen `variant`, with the cursor
    /// where it was left the last time.
    pub fn new(variant: usize, highlighted: usize) -> (picker: AlgoPicker)
        ensures
            picker.variant == variant,
            picker.cursor == (Cursor { len: 2, highlighted, selected: None }),
    {
        AlgoPicker { variant, cursor: Cursor::new(Algo::len(), highlighted) }
    }

    /// Hands the engine settled on to the choice of the diagonal policy.
    pub fn get_next_stage_params(&self) -> (next: SceneParams)
        requires
            self.cursor.selected is Some,
            self.cursor.selected->0 < 2,
        ensures
            next matches SceneParams::DiagonalSelection { algo, variant } && algo == Algo::at(
                self.cursor.selected->0 as int,
            ) && variant == self.variant,
    {
        match self.cursor.selected {
            Some(i) => SceneParams::DiagonalSelection {
                algo: Algo::from_index(i),
                variant: self.variant,
            },
            None => SceneParams::Empty,
        }
    }
}

/// Picks the diagonal policy.
#[derive(Debug, Clone, Copy, PartialEq, Eq, Structural)]
pub struct DiagonalPicker {
    pub algo: Algo,
    pub variant: usize,
    pub cursor: Cursor,
}

impl DiagonalPicker {
    /// A picker over the diagonal policies for the chosen engine and
    /// variant, with the cursor where it was left the last time.
    pub fn new(algo: Algo, variant: usize, highlighted: usize) -> (picker: DiagonalPicker)
        ensures
            picker.algo == algo,
            picker.variant == variant,
            picker.cursor == (Cursor { len: 4, highlighted, selected: None }),
    {
        DiagonalPicker { algo, variant, cursor: Cursor::new(Diagonal::len(), highlighted) }
    }

    /// The policy under the cursor.
    pub fn highlighted(&self) -> (diagonal: Diagonal)
        requires
            self.cursor.highlighted < 4,
        ensures
            diagonal == Diagonal::at(self.cursor.highlighted as int),
    {
        Diagonal::from_index(self.cursor.highlighted)
    }

    /// For the three sample corners, flanked by no wall, by one and by
    /// two: whether the policy under the cursor lets a diagonal step pass.
    pub fn allowed_markers(&self) -> (marks: [bool; 3])
        requires
            self.cursor.highlighted < 4,
        ensures
            forall|walls: int|
                0 <= walls < 3 ==> #[trigger] marks[walls] == Diagonal::at(
                    self.cursor.highlighted as int,
                ).passes(walls),
    {
        let diagonal = self.highlighted();
        [diagonal.allows(0), diagonal.allows(1), diagonal.allows(2)]
    }

    /// Hands the policy settled on to the choice of the heuristic.
    pub fn get_next_stage_params(&self) -> (next: SceneParams)
        requires
            self.cursor.selected is Some,
            self.cursor.selected->0 < 4,
        ensures
            next matches SceneParams::HeuristicSelection { algo, diagonal, variant } && algo
                == self.algo && diagonal == Diagonal::at(self.cursor.selected->0 as int)
                && variant == self.variant,
    {
        match self.cursor.selected {
            Some(i) => SceneParams::HeuristicSelection {
                algo: self.algo,
                diagonal: Diagonal::from_index(i),
                variant: self.variant,
            },
            None => SceneParams::Empty,
        }
    }
}

/// What the heuristic picker was told by the pickers before it.
#[derive(Debug, Clone, Copy, PartialEq, Eq, Structural)]
pub struct HeuristicParams {
    pub algo: Algo,
    pub diagonal: Diagonal,
    pub variant: usize,
}

/// Picks the heuristic, for the engines that take one.
#[derive(Debug, Clone, Copy, PartialEq, Eq, Structural)]
pub struct HeuristicPicker {
    pub params: HeuristicParams,
    pub cursor: Cursor,
}

impl HeuristicPicker {
    /// A picker over the heuristics, with the cursor where it was left the
    /// last time. For an engine that takes no heuristic the choice is
    /// settled at once, on the first entry.
    pub fn new(algo: Algo, diagonal: Diagonal, variant: usize, highlighted: usize) -> (picker:
        HeuristicPicker)
        ensures
            picker.params == (HeuristicParams { algo, diagonal, variant }),
            picker.cursor == (Cursor {
                len: 6,
                highlighted,
                selected: if algo == Algo::AStar {
                    None
                } else {
                    Some(0usize)
                },
            }),
    {
        let params = HeuristicParams { algo, diagonal, variant };
        let open = Cursor::new(Heuristic::len(), highlighted);
        if params.algo.supported_heuristics() {
            HeuristicPicker { params, cursor: open }
        } else {
            HeuristicPicker { params, cursor: Cursor { selected: Some(0), ..open } }
        }
    }

    /// Builds the engine that all the choices add up to, on `map`, and
    /// hands it to the run. There is nothing to hand on for a variant that
    /// is not [`playable`].
    pub fn get_next_stage_params(&self, map: &GridMap) -> (next: Option<SceneParams>)
        requires
            self.cursor.selected is Some,
            self.cursor.selected->0 < 6,
        ensures
            next is Some <==> playable(
                *map,
                self.params.variant as int,
                self.params.algo,
                Heuristic::at(self.cursor.selected->0 as int),
            ),
            match next {
                Some(SceneParams::AlgoRunner { algo, algo_name, diagonal, heuristic, variant }) => {
                    &&& algo.wf()
                    &&& algo.steps() == 0
                    &&& algo.state() == initial(algo.problem())
                    &&& poses(
                        algo.problem(),
                        *map,
                        self.params.variant as int,
                        self.params.algo,
                        self.params.diagonal,
                        heuristic,
                    )
                    &&& algo_name@ == self.params.algo.label()
                    &&& diagonal == self.params.diagonal
                    &&& heuristic == Heuristic::at(self.cursor.selected->0 as int)
                    &&& variant == self.params.variant
                },
                Some(_) => false,
                None => true,
            },
    {
        match self.cursor.selected {
            Some(i) => {
                let heuristic = Heuristic::from_index(i);
                match Engine::for_map(
                    map,
                    self.params.variant,
                    self.params.algo,
                    self.params.diagonal,
                    heuristic,
                ) {
                    Some(engine) => Some(
                        SceneParams::AlgoRunner {
                            algo: engine,
                            algo_name: self.params.algo.name(),
                            diagonal: self.params.diagonal,
                            heuristic,
                            variant: self.params.variant,
                        },
                    ),
                    None => None,
                }
            },
            None => None,
        }
    }
}

/// Picks the map and, on it, the variant.
#[derive(Debug, Clone, Copy, PartialEq, Eq, Structural)]
pub struct MapPicker {
    pub map_count: usize,
    pub selected: Option<usize>,
    pub highlighted: usize,
    pub variant_highlighted: usize,
}

impl MapPicker {
    /// The picker after a key went down. `Up` and `Down` move between the
    /// maps and go back to the first variant; `Left` and `Right` move
    /// between the `variants` of the highlighted map.
    pub open spec fn pressed(self, key: Key, variants: usize) -> MapPicker {
        match key {
            Key::Up => if self.highlighted > 0 {
                MapPicker {
                    highlighted: (self.highlighted - 1) as usize,
                    variant_highlighted: 0,
                    ..self
                }
            } else {
                self
            },
            Key::Down => if self.highlighted + 1 < self.map_count {
                MapPicker {
                    highlighted: (self.highlighted + 1) as usize,
                    variant_highlighted: 0,
                    ..self
                }
            } else {
                self
            },
            Key::Left => if self.variant_highlighted > 0 {
                MapPicker { variant_highlighted: (self.variant_highlighted - 1) as usize, ..self }
            } else {
                self
            },
            Key::Right => if self.variant_highlighted + 1 < variants {
                MapPicker { variant_highlighted: (self.variant_highlighted + 1) as usize, ..self }
            } else {
                self
            },
            _ => self,
        }
    }

    /// A picker over `map_count` maps, with both cursors where they were
    /// left the last time.
    pub fn new(map_count: usize, highlighted: usize, variant_highlighted: usize) -> (picker:
        MapPicker)
        ensures
            picker == (MapPicker { map_count, selected: None, highlighted, variant_highlighted }),
    {
        MapPicker { map_count, selected: None, highlighted, variant_highlighted }
    }

    /// Reacts to a key going down; `variants` is the number of variants of
    /// the highlighted map.
    pub fn on_button_down(&mut self, key: Key, variants: usize)
        ensures
            *final(self) == old(self).pressed(key, variants),
    {
        match key {
            Key::Up => {
                if self.highlighted > 0 {
                    self.highlighted -= 1;
                    self.variant_highlighted = 0;
                }
            },
            Key::Down => {
                if self.map_count > 0 && self.highlighted < self.map_count - 1 {
                    self.highlighted += 1;
                    self.variant_highlighted = 0;
                }
            },
            Key::Left => {
                if self.variant_highlighted > 0 {
                    self.variant_highlighted -= 1;
                }
            },
            Key::Right => {
                if variants > 0 && self.variant_highlighted < variants - 1 {
                    self.variant_highlighted += 1;
                }
            },
            _ => {},
        }
    }

    /// Reacts to a key coming up: `Return` settles on the highlighted map.
    pub fn on_button_up(&mut self, key: Key)
        ensures
            *final(self) == (match key {
                Key::Return => MapPicker { selected: Some(old(self).highlighted), ..*old(self) },
                _ => *old(self),
            }),
    {
        match key {
            Key::Return => {
                self.selected = Some(self.highlighted);
            },
            _ => {},
        }
    }

    pub fn is_complete(&self) -> (done: bool)
        ensures
            done == self.selected is Some,
    {
        self.selected.is_some()
    }

    /// Hands the map settled on, and the highlighted variant, to the
    /// choice of the engine.
    pub fn get_next_stage_params(&self) -> (next: SceneParams)
        requires
            self.selected is Some,
        ensures
            next matches SceneParams::AlgoSelection { map, variant } && map == self.selected->0
                && variant == self.variant_highlighted,
    {
        match self.selected {
            Some(map) => SceneParams::AlgoSelection { map, variant: self.variant_highlighted },
            None => SceneParams::Empty,
        }
    }
}

} // verus!
