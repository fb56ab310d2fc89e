#![allow(unused_imports)]
use vstd::prelude::*;

use crate::model::{
    growth_fits, init_apple, init_grid, init_path, update_post, GameState, Model, ModelView,
    Orientation,
};

verus! {

/// The abstract keys the game reacts to.  Mapping the host's key codes to
/// these is the input source's concern, outside the verified core.
#[derive(Clone, Copy, Debug, PartialEq, Eq, Structural)]
pub enum Key {
    Up,
    Down,
    Left,
    Right,
    Confirm,
}

/// What a debounced push does to the direction queue: the direction is
/// appended unless it equals the one at the back, which a held key would
/// keep repeating.
pub open spec fn debounced_push(q: Seq<Orientation>, d: Orientation) -> Seq<Orientation> {
    if q.len() > 0 && q.last() == d {
        q
    } else {
        q.push(d)
    }
}

/// The first buffered direction, if any: what the next tick will consume.
pub open spec fn queue_front(q: Seq<Orientation>) -> Option<Orientation> {
    if q.len() > 0 {
        Some(q[0])
    } else {
        None
    }
}

/// The mathematical image of a [`Controller`]: the model it mediates for
/// and the buffered directions, oldest first.
pub struct ControllerView {
    pub model: ModelView,
    pub queue: Seq<Orientation>,
}

impl ControllerView {
    /// The controller is well formed: its model is, and the board is
    /// large enough to restart a game on.
    pub open spec fn wf(self) -> bool {
        self.model.wf() && self.model.dims_ok()
    }
}

/// What buffering one direction does: while playing, a debounced push;
/// otherwise nothing at all.
pub open spec fn input_post(pre: ControllerView, post: ControllerView, d: Orientation) -> bool {
    if pre.model.state is Playing {
        post.model == pre.model && post.queue == debounced_push(pre.queue, d)
    } else {
        post == pre
    }
}

/// What confirming does: outside a running game the board is reset to the
/// starting shape and play begins; during one nothing changes.  The
/// buffered directions stay either way.
pub open spec fn confirm_post(pre: ControllerView, post: ControllerView) -> bool {
    &&& post.queue == pre.queue
    &&& if pre.model.state is Playing {
        post.model == pre.model
    } else {
        post.model == (ModelView {
            state: GameState::Playing,
            grid: init_grid(pre.model.width, pre.model.height),
            snake_len: 4,
            path: init_path(pre.model.width, pre.model.height),
            apple: init_apple(pre.model.width, pre.model.height),
            ..pre.model
        })
    }
}

/// Mediates between the direction queue and the grid engine: keys buffer
/// turns or start a game, and each tick feeds the oldest buffered turn to
/// the engine.  All calls arrive on the single consumer thread, so no
/// lock is needed around the queue here.
pub struct Controller {
    model: Model,
    direction_buffer: Vec<Orientation>,
}

impl View for Controller {
    type V = ControllerView;

    closed spec fn view(&self) -> ControllerView {
        ControllerView { model: self.model@, queue: self.direction_buffer@ }
    }
}

impl Controller {
    /// Wrap a model; the direction queue starts empty.
    pub fn new(model: Model) -> (r: Controller)
        ensures
            r@.model == model@,
            r@.queue == Seq::<Orientation>::empty(),
    {
        Controller { model, direction_buffer: Vec::new() }
    }

    /// The state the mediated game is in.
    pub fn game_state(&self) -> (r: GameState)
        ensures
            r == self@.model.state,
    {
        self.model.game_state()
    }

    /// How many directions are buffered.
    pub fn buffered_len(&self) -> (r: usize)
        ensures
            r == self@.queue.len(),
    {
        self.direction_buffer.len()
    }

    /// The model the controller mediates for, for rendering snapshots.
    pub fn model(&self) -> (r: &Model)
        ensures
            r@ == self@.model,
    {
        &self.model
    }

    /// One tick: pop the oldest buffered direction and, if a game is
    /// running, advance the model by it.  The queue drains even outside
    /// a running game.
    pub fn update_model(&mut self)
        requires
            old(self)@.wf(),
            old(self)@.model.state is Playing ==> growth_fits(
                old(self)@.model,
                queue_front(old(self)@.queue),
            ),
        ensures
            final(self)@.wf(),
            final(self)@.model.width == old(self)@.model.width,
            final(self)@.model.height == old(self)@.model.height,
            final(self)@.queue == if old(self)@.queue.len() > 0 {
                old(self)@.queue.skip(1)
            } else {
                old(self)@.queue
            },
            if old(self)@.model.state is Playing {
                update_post(
                    old(self)@.model,
                    final(self)@.model,
                    queue_front(old(self)@.queue),
                    final(self)@.model.state,
                )
            } else {
                final(self)@.model == old(self)@.model
            },
    {
        let direction: Option<Orientation> = if self.direction_buffer.len() > 0 {
            Some(self.direction_buffer.remove(0))
        } else {
            None
        };
        proof {
            assert(direction == queue_front(old(self)@.queue));
            if old(self)@.queue.len() > 0 {
                assert(self.direction_buffer@ =~= old(self)@.queue.skip(1));
            }
        }
        if matches!(self.model.game_state(), GameState::Playing) {
            self.model.update(direction);
        }
    }

    /// Map an abstract key to its action: a direction key buffers a turn
    /// for the running game, Confirm starts one when none is running, and
    /// nothing else happens.
    pub fn handle_input(&mut self, key: Key)
        requires
            old(self)@.wf(),
        ensures
            final(self)@.wf(),
            final(self)@.model.width == old(self)@.model.width,
            final(self)@.model.height == old(self)@.model.height,
            match key {
                Key::Up => input_post(old(self)@, final(self)@, Orientation::Up),
                Key::Down => input_post(old(self)@, final(self)@, Orientation::Down),
                Key::Left => input_post(old(self)@, final(self)@, Orientation::Left),
                Key::Right => input_post(old(self)@, final(self)@, Orientation::Right),
                Key::Confirm => confirm_post(old(self)@, final(self)@),
            },
    {
        match key {
            Key::Confirm => self.start_game(),
            Key::Left => self.input_direction(Orientation::Left),
            Key::Up => self.input_direction(Orientation::Up),
            Key::Right => self.input_direction(Orientation::Right),
            Key::Down => self.input_direction(Orientation::Down),
        }
    }

    /// Buffer one turn for the running game, unless it repeats the turn
    /// already at the back of the queue — a held key generates duplicate
    /// events, and one buffered copy is enough.
    pub fn input_direction(&mut self, direction: Orientation)
        requires
            old(self)@.model.wf(),
        ensures
            final(self)@.model.wf(),
            final(self)@.model == old(self)@.model,
            input_post(old(self)@, final(self)@, direction),
    {
        match self.model.game_state() {
            GameState::Playing => {
                let do_push: bool = if self.direction_buffer.len() > 0 {
                    let back = self.direction_buffer[self.direction_buffer.len() - 1];
                    back != direction
                } else {
                    true
                };
                if do_push {
                    self.direction_buffer.push(direction);
                }
            },
            GameState::TitleScreen | GameState::GameOver => {},
        }
    }

    /// Start a game unless one is already running.
    pub fn start_game(&mut self)
        requires
            old(self)@.wf(),
        ensures
            final(self)@.wf(),
            final(self)@.model.width == old(self)@.model.width,
            final(self)@.model.height == old(self)@.model.height,
            confirm_post(old(self)@, final(self)@),
    {
        match self.model.game_state() {
            GameState::TitleScreen | GameState::GameOver => self.model.start_game(),
            GameState::Playing => {},
        }
    }
}

/// Debounce: pushing one direction twice in a row buffers it exactly
/// once — the second push leaves the queue as the first left it, and on
/// an empty queue the pair of pushes yields a queue of length one.
pub proof fn lemma_debounce(q: Seq<Orientation>, d: Orientation)
    ensures
        debounced_push(debounced_push(q, d), d) == debounced_push(q, d),
        q.len() == 0 ==> debounced_push(debounced_push(q, d), d).len() == 1,
{
    if !(q.len() > 0 && q.last() == d) {
        assert(q.push(d).last() == d);
    }
}

} // verus!
