use vstd::prelude::*;

use multimap::MultiMap;

use crate::structure::{Signal, PinValue, PinValueModel, Pin, Hitbox, HitboxType, Rect, Point, CircuitError, OUTPUT};

verus! {

/// A constant signal source with one output pin.
#[derive(Debug, Clone, PartialEq, Eq)]
pub struct Source {
    pub id: usize,
    pub output: Pin,
    pub position: Point,
    pub hitbox: Hitbox,
    pub ref_pin_pos: Point,
}

impl Source {
    /// The invariant of a source: one output pin numbered 1 carrying a single signal, ids in
    /// place, geometry near the source's position.
    pub open spec fn wf(&self) -> bool {
        &&& self.output.pid == 1
        &&& self.output.ioc == OUTPUT
        &&& self.output.cid == self.id
        &&& self.output.tagged()
        &&& self.output.value is Single
        &&& self.output.hitbox.rect.near(self.position)
        &&& self.position.in_canvas()
        &&& self.hitbox.rect.near(self.position)
        &&& self.ref_pin_pos.near(self.position)
    }

    pub open spec fn pins(&self) -> Seq<Pin> {
        seq![self.output]
    }

    /// A source of value 0 (off) or 1 (on); any other value is an error.
    pub fn new(value: usize) -> (r: Result<Source, CircuitError>)
        ensures
            value > 1 <==> r == Err::<Source, CircuitError>(CircuitError::InvalidSourceValue(value)),
            value <= 1 <==> r is Ok,
            r matches Ok(s) ==> {
                &&& s.wf()
                &&& s.id == 0
                &&& s.output.value@ == PinValueModel::Single(if value == 0 { Signal::Off } else { Signal::On })
                &&& s.output.hitbox.rect == (Rect { x: 70, y: 34, w: 5, h: 5 })
                &&& s.position == (Point { x: 0, y: 0 })
            },
    {
        let signal = if value == 0 {
            Signal::Off
        } else if value == 1 {
            Signal::On
        } else {
            return Err(CircuitError::InvalidSourceValue(value));
        };
        Ok(
            Source {
                id: 0,
                output: Pin {
                    value: PinValue::Single(signal),
                    cid: 0,
                    pid: 1,
                    ioc: OUTPUT,
                    hitbox: Hitbox {
                        rect: Rect { x: 70, y: 34, w: 5, h: 5 },
                        kind: HitboxType::Pin(0, 1, OUTPUT),
                    },
                },
                position: Point { x: 0, y: 0 },
                hitbox: Hitbox { rect: Rect { x: 46, y: 27, w: 20, h: 20 }, kind: HitboxType::Component },
                ref_pin_pos: Point { x: 73, y: 37 },
            },
        )
    }

    /// The pin with port id `pid` and role `ioc`: only the output, port 1, exists.
    pub fn get_pin(&self, pid: usize, ioc: usize) -> (r: Result<&Pin, CircuitError>)
        requires
            self.wf(),
        ensures
            (pid == 1 && ioc == OUTPUT) <==> r is Ok,
            r is Err ==> r == Err::<&Pin, CircuitError>(CircuitError::NoSuchPin),
            r matches Ok(p) ==> *p == self.output,
    {
        if ioc == OUTPUT && pid == self.output.pid {
            Ok(&self.output)
        } else {
            Err(CircuitError::NoSuchPin)
        }
    }

    /// Gives the source the id `id`, also in its pin and in the pin hitbox's tag.
    pub fn set_id(&mut self, id: usize)
        requires
            old(self).wf(),
        ensures
            final(self).wf(),
            *final(self) == (Source { id, output: old(self).output.with_cid(id), ..*old(self) }),
    {
        self.id = id;
        self.output.set_cid(id);
    }

    /// Moves the source to `position`; its pin, hitbox and reference pin move with it.
    pub fn update_source_position(&mut self, position: Point)
        requires
            old(self).wf(),
            position.in_canvas(),
        ensures
            final(self).wf(),
            *final(self) == (Source {
                position,
                output: old(self).output.shifted(old(self).position, position),
                hitbox: Hitbox { rect: old(self).hitbox.rect.shifted(old(self).position, position), ..old(self).hitbox },
                ref_pin_pos: old(self).ref_pin_pos.shifted(old(self).position, position),
                ..*old(self)
            }),
    {
        let from = self.position;
        self.output.shift(from, position);
        self.hitbox.rect.shift(from, position);
        self.ref_pin_pos.shift(from, position);
        self.position = position;
    }

    /// The hitbox of the source's pin.
    pub fn source_pin_hitbox(&self) -> (r: Vec<Hitbox>)
        ensures
            r@ == seq![self.output.hitbox],
    {
        let mut r: Vec<Hitbox> = Vec::new();
        r.push(self.output.hitbox);
        r
    }

    /// Records the source's reference pin in `map`, under the point where it stands, as the
    /// address (source id, port 1, output role).
    pub fn store_pin_pos(&self, map: &mut MultiMap<(i64, i64), (usize, usize, usize)>)
        ensures
            pin_position_map(*final(map)) == pin_position_map(*old(map)).insert(
                (self.ref_pin_pos.x, self.ref_pin_pos.y),
                if pin_position_map(*old(map)).contains_key((self.ref_pin_pos.x, self.ref_pin_pos.y)) {
                    pin_position_map(*old(map))[(self.ref_pin_pos.x, self.ref_pin_pos.y)].push((self.id, 1usize, OUTPUT))
                } else {
                    seq![(self.id, 1usize, OUTPUT)]
                },
            ),
    {
        insert_pin_position(map, (self.ref_pin_pos.x, self.ref_pin_pos.y), (self.id, 1, OUTPUT));
    }

    /// The picture that shows the source: high when it is on, else low.
    pub fn load_source_image(&self) -> (r: &'static str)
        ensures
            self.output.value == PinValue::Single(Signal::On) ==> r@ == "/sources/normal/source_high.png"@,
            self.output.value != PinValue::Single(Signal::On) ==> r@ == "/sources/normal/source_low.png"@,
    {
        proof {
            reveal_strlit("/sources/normal/source_high.png");
            reveal_strlit("/sources/normal/source_low.png");
        }
        match &self.output.value {
            PinValue::Single(Signal::On) => "/sources/normal/source_high.png",
            _ => "/sources/normal/source_low.png",
        }
    }
}

#[verifier::external_type_specification]
#[verifier::external_body]
#[verifier::reject_recursive_types(K)]
#[verifier::reject_recursive_types(V)]
#[verifier::reject_recursive_types(S)]
pub struct ExMultiMap<K, V, S>(MultiMap<K, V, S>);

/// What a map from grid points to pin addresses holds: for each point, its addresses in the
/// order they were inserted.
pub uninterp spec fn pin_position_map(m: MultiMap<(i64, i64), (usize, usize, usize)>) -> Map<(i64, i64), Seq<(usize, usize, usize)>>;

/// Relies on multimap::MultiMap::insert: the value joins the end of its key's list, or starts
/// a list of its own under a key the map did not hold.
#[verifier::external_body]
fn insert_pin_position(map: &mut MultiMap<(i64, i64), (usize, usize, usize)>, key: (i64, i64), pin: (usize, usize, usize))
    ensures
        pin_position_map(*final(map)) == pin_position_map(*old(map)).insert(
            key,
            if pin_position_map(*old(map)).contains_key(key) {
                pin_position_map(*old(map))[key].push(pin)
            } else {
                seq![pin]
            },
        ),
{
    map.insert(key, pin);
}

} // verus!
