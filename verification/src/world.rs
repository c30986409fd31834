//! The 3D block world: directions, block states, and a sparse voxel grid.
//!
//! This is the shared substrate between the schematic emitter and the redstone
//! simulator. Both read the same [`Grid`], so what is simulated is exactly the
//! blocks that are shipped.
use crate::posmap::{by_layer, PosMap};
use crate::text::{decimal, push_decimal, push_signed, push_truth, signed, truth};
use vstd::prelude::*;
use vstd::string::*;

verus! {

#[derive(Debug, Clone, Copy, PartialEq, Eq, Hash, PartialOrd, Ord, Structural)]
pub enum Dir {
    /// Towards -Z.
    North,
    /// Towards +Z.
    South,
    /// Towards -X.
    West,
    /// Towards +X.
    East,
}

/// The step that leads one block in direction `d`.
pub open spec fn delta_of(d: Dir) -> (int, int, int) {
    match d {
        Dir::North => (0, 0, -1),
        Dir::South => (0, 0, 1),
        Dir::West => (-1, 0, 0),
        Dir::East => (1, 0, 0),
    }
}

pub open spec fn opposite_of(d: Dir) -> Dir {
    match d {
        Dir::North => Dir::South,
        Dir::South => Dir::North,
        Dir::West => Dir::East,
        Dir::East => Dir::West,
    }
}

pub open spec fn dir_name(d: Dir) -> Seq<char> {
    match d {
        Dir::North => "north"@,
        Dir::South => "south"@,
        Dir::West => "west"@,
        Dir::East => "east"@,
    }
}

impl Dir {
    pub const ALL: [Dir; 4] = [Dir::North, Dir::South, Dir::West, Dir::East];

    pub fn delta(self) -> (r: (i32, i32, i32))
        ensures
            (r.0 as int, r.1 as int, r.2 as int) == delta_of(self),
    {
        match self {
            Dir::North => (0, 0, -1),
            Dir::South => (0, 0, 1),
            Dir::West => (-1, 0, 0),
            Dir::East => (1, 0, 0),
        }
    }

    pub fn opposite(self) -> (r: Dir)
        ensures
            r == opposite_of(self),
    {
        match self {
            Dir::North => Dir::South,
            Dir::South => Dir::North,
            Dir::West => Dir::East,
            Dir::East => Dir::West,
        }
    }

    pub fn name(self) -> (r: &'static str)
        ensures
            r@ == dir_name(self),
    {
        match self {
            Dir::North => "north",
            Dir::South => "south",
            Dir::West => "west",
            Dir::East => "east",
        }
    }
}

/// Turning round twice leads back, and a step and its opposite cancel.
pub proof fn lemma_opposite(d: Dir)
    ensures
        opposite_of(opposite_of(d)) == d,
        opposite_of(d) != d,
        delta_of(d).0 + delta_of(opposite_of(d)).0 == 0,
        delta_of(d).1 + delta_of(opposite_of(d)).1 == 0,
        delta_of(d).2 + delta_of(opposite_of(d)).2 == 0,
{
}

pub type Pos = (i32, i32, i32);

/// Every position that touches `p` has coordinates that fit.
pub open spec fn interior(p: Pos) -> bool {
    &&& i32::MIN < p.0 < i32::MAX
    &&& i32::MIN < p.1 < i32::MAX
    &&& i32::MIN < p.2 < i32::MAX
}

/// The position one block from `p` in direction `d`.
pub open spec fn beside(p: Pos, d: Dir) -> Pos {
    ((p.0 + delta_of(d).0) as i32, p.1, (p.2 + delta_of(d).2) as i32)
}

/// The position on top of `p`.
pub open spec fn above(p: Pos) -> Pos {
    (p.0, (p.1 + 1) as i32, p.2)
}

/// The position under `p`.
pub open spec fn below(p: Pos) -> Pos {
    (p.0, (p.1 - 1) as i32, p.2)
}

/// One block from `p` in direction `d`.
pub fn offset(p: Pos, d: Dir) -> (r: Pos)
    requires
        i32::MIN <= p.0 + delta_of(d).0 <= i32::MAX,
        i32::MIN <= p.2 + delta_of(d).2 <= i32::MAX,
    ensures
        r == beside(p, d),
{
    let (dx, dy, dz) = d.delta();
    (p.0 + dx, p.1 + dy, p.2 + dz)
}

pub fn up(p: Pos) -> (r: Pos)
    requires
        p.1 < i32::MAX,
    ensures
        r == above(p),
{
    (p.0, p.1 + 1, p.2)
}

pub fn down(p: Pos) -> (r: Pos)
    requires
        p.1 > i32::MIN,
    ensures
        r == below(p),
{
    (p.0, p.1 - 1, p.2)
}

/// A step and the step back lead to where they began.
pub proof fn lemma_there_and_back(p: Pos, d: Dir)
    requires
        interior(p),
    ensures
        beside(beside(p, d), opposite_of(d)) == p,
        below(above(p)) == p,
        above(below(p)) == p,
{
}

/// Opaque full-cube materials. All of these conduct redstone power identically;
/// the distinction is purely visual so the finished build is legible in-game.
#[derive(Debug, Clone, Copy, PartialEq, Eq, Hash, Structural)]
pub enum Material {
    /// Substrate under gate cells.
    Gate,
    /// Substrate under routing channels.
    Wire,
    /// Shield blocks that deliberately break dust up-connections.
    Shield,
    /// Marks an input port.
    PortIn,
    /// Marks an output port.
    PortOut,
    /// Clock distribution.
    Clock,
}

pub open spec fn material_id(m: Material) -> Seq<char> {
    match m {
        Material::Gate => "minecraft:stone"@,
        Material::Wire => "minecraft:polished_andesite"@,
        Material::Shield => "minecraft:smooth_stone"@,
        Material::PortIn => "minecraft:lime_concrete"@,
        Material::PortOut => "minecraft:red_concrete"@,
        Material::Clock => "minecraft:blue_concrete"@,
    }
}

impl Material {
    /// The block identifier.
    pub fn id(self) -> (r: &'static str)
        ensures
            r@ == material_id(self),
    {
        match self {
            Material::Gate => "minecraft:stone",
            Material::Wire => "minecraft:polished_andesite",
            Material::Shield => "minecraft:smooth_stone",
            Material::PortIn => "minecraft:lime_concrete",
            Material::PortOut => "minecraft:red_concrete",
            Material::Clock => "minecraft:blue_concrete",
        }
    }
}

/// Which surface a lever is mounted on.
#[derive(Debug, Clone, Copy, PartialEq, Eq, Hash, Structural)]
pub enum Face {
    Floor,
    Wall,
    Ceiling,
}

pub open spec fn face_name(f: Face) -> Seq<char> {
    match f {
        Face::Floor => "floor"@,
        Face::Wall => "wall"@,
        Face::Ceiling => "ceiling"@,
    }
}

impl Face {
    pub fn name(self) -> (r: &'static str)
        ensures
            r@ == face_name(self),
    {
        match self {
            Face::Floor => "floor",
            Face::Wall => "wall",
            Face::Ceiling => "ceiling",
        }
    }
}

#[derive(Debug, Clone, Copy, PartialEq, Eq, Hash, Structural)]
pub enum Block {
    Air,
    Solid(Material),
    /// Redstone dust. `power` is a render/emit hint; the simulator recomputes it.
    Dust { power: u8 },
    /// Torch mounted on the side of a block. `facing` is the direction the torch
    /// points *away* from its support, so the support block is at `facing.opposite()`.
    WallTorch { facing: Dir, lit: bool },
    /// Torch standing on top of a block; its support is the block below.
    Torch { lit: bool },
    /// `facing` is the direction from the OUTPUT side to the INPUT side, matching
    /// Minecraft's blockstate convention. So the repeater reads from `facing` and
    /// drives toward `facing.opposite()`.
    Repeater { facing: Dir, delay: u8, powered: bool },
    Lever { face: Face, facing: Dir, powered: bool },
    Lamp { lit: bool },
}

/// How a dust block connects on one horizontal side.
#[derive(Debug, Clone, Copy, PartialEq, Eq, Structural)]
pub enum Conn {
    /// No connection.
    Empty,
    Side,
    Up,
}

/// How a dust block visually/functionally connects on each horizontal side.
#[derive(Debug, Clone, Copy, PartialEq, Eq, Structural)]
pub struct DustShape {
    pub north: Conn,
    pub south: Conn,
    pub west: Conn,
    pub east: Conn,
}

impl Default for Conn {
    fn default() -> (r: Conn)
        ensures
            r == Conn::Empty,
    {
        Conn::Empty
    }
}

/// Dust that connects nowhere.
pub open spec fn dot() -> DustShape {
    DustShape { north: Conn::Empty, south: Conn::Empty, west: Conn::Empty, east: Conn::Empty }
}

impl Default for DustShape {
    fn default() -> (r: DustShape)
        ensures
            r == dot(),
    {
        DustShape { north: Conn::Empty, south: Conn::Empty, west: Conn::Empty, east: Conn::Empty }
    }
}

/// The connection of a shape on side `d`.
pub open spec fn side_of(s: DustShape, d: Dir) -> Conn {
    match d {
        Dir::North => s.north,
        Dir::South => s.south,
        Dir::West => s.west,
        Dir::East => s.east,
    }
}

/// A shape with one side changed.
pub open spec fn with_side(s: DustShape, d: Dir, c: Conn) -> DustShape {
    match d {
        Dir::North => DustShape { north: c, ..s },
        Dir::South => DustShape { south: c, ..s },
        Dir::West => DustShape { west: c, ..s },
        Dir::East => DustShape { east: c, ..s },
    }
}

pub open spec fn conn_name(c: Conn) -> Seq<char> {
    match c {
        Conn::Empty => "none"@,
        Conn::Side => "side"@,
        Conn::Up => "up"@,
    }
}

impl Conn {
    fn name(self) -> (r: &'static str)
        ensures
            r@ == conn_name(self),
    {
        match self {
            Conn::Empty => "none",
            Conn::Side => "side",
            Conn::Up => "up",
        }
    }
}

impl DustShape {
    /// The name of the connection on side `d`.
    pub fn get(self, d: Dir) -> (r: &'static str)
        ensures
            r@ == conn_name(side_of(self, d)),
    {
        match d {
            Dir::North => self.north.name(),
            Dir::South => self.south.name(),
            Dir::West => self.west.name(),
            Dir::East => self.east.name(),
        }
    }

    pub fn set(&mut self, d: Dir, c: Conn)
        ensures
            *final(self) == with_side(*old(self), d, c),
    {
        match d {
            Dir::North => self.north = c,
            Dir::South => self.south = c,
            Dir::West => self.west = c,
            Dir::East => self.east = c,
        }
    }

    /// Dust with no horizontal connections renders as a dot, but Minecraft
    /// stores that as all-`none`, which is what `Default` already gives us.
    pub fn is_dot(self) -> (r: bool)
        ensures
            r == (self == dot()),
    {
        self == DustShape { north: Conn::Empty, south: Conn::Empty, west: Conn::Empty, east: Conn::Empty }
    }

    /// The connection on side `d`.
    pub fn side(self, d: Dir) -> (r: Conn)
        ensures
            r == side_of(self, d),
    {
        match d {
            Dir::North => self.north,
            Dir::South => self.south,
            Dir::West => self.west,
            Dir::East => self.east,
        }
    }
}

pub open spec fn is_dust(b: Block) -> bool {
    b is Dust
}

/// A full opaque cube.
pub open spec fn opaque_block(b: Block) -> bool {
    b is Solid || b is Lamp
}

/// The power that the emitted state shows: at most 15.
pub open spec fn shown_power(power: u8) -> nat {
    if power < 15 {
        power as nat
    } else {
        15
    }
}

/// The delay that the emitted state shows: one to four.
pub open spec fn shown_delay(delay: u8) -> nat {
    if delay < 1 {
        1
    } else if delay > 4 {
        4
    } else {
        delay as nat
    }
}

/// The Minecraft blockstate string.
pub open spec fn state_text(b: Block, shape: DustShape) -> Seq<char> {
    match b {
        Block::Air => "minecraft:air"@,
        Block::Solid(m) => material_id(m),
        Block::Dust { power } => "minecraft:redstone_wire[east="@ + conn_name(shape.east)
            + ",north="@ + conn_name(shape.north) + ",power="@ + decimal(shown_power(power))
            + ",south="@ + conn_name(shape.south) + ",west="@ + conn_name(shape.west) + "]"@,
        Block::WallTorch { facing, lit } => "minecraft:redstone_wall_torch[facing="@ + dir_name(
            facing,
        ) + ",lit="@ + truth(lit) + "]"@,
        Block::Torch { lit } => "minecraft:redstone_torch[lit="@ + truth(lit) + "]"@,
        Block::Repeater { facing, delay, powered } => "minecraft:repeater[delay="@ + decimal(
            shown_delay(delay),
        ) + ",facing="@ + dir_name(facing) + ",locked=false,powered="@ + truth(powered) + "]"@,
        Block::Lever { face, facing, powered } => "minecraft:lever[face="@ + face_name(face)
            + ",facing="@ + dir_name(facing) + ",powered="@ + truth(powered) + "]"@,
        Block::Lamp { lit } => "minecraft:redstone_lamp[lit="@ + truth(lit) + "]"@,
    }
}

impl Block {
    /// A full opaque cube. Opaque blocks block dust up-connections and can carry
    /// redstone power.
    pub fn is_opaque(self) -> (r: bool)
        ensures
            r == opaque_block(self),
    {
        match self {
            Block::Solid(_) => true,
            Block::Lamp { .. } => true,
            _ => false,
        }
    }

    /// Whether this block can be powered and then re-emit that power to dust.
    /// Narrower than [`Block::is_opaque`]: a lamp takes power and passes none on.
    pub fn conducts(self) -> (r: bool)
        ensures
            r == self is Solid,
    {
        match self {
            Block::Solid(_) => true,
            _ => false,
        }
    }

    /// Redstone dust?
    pub fn is_dust(self) -> (r: bool)
        ensures
            r == is_dust(self),
    {
        match self {
            Block::Dust { .. } => true,
            _ => false,
        }
    }

    /// The Minecraft blockstate string, used as a schematic palette key.
    pub fn state_id(self, shape: DustShape) -> (s: String)
        ensures
            s@ == state_text(self, shape),
    {
        let mut s = String::new();
        match self {
            Block::Air => s.append("minecraft:air"),
            Block::Solid(m) => s.append(m.id()),
            Block::Dust { power } => {
                s.append("minecraft:redstone_wire[east=");
                s.append(shape.get(Dir::East));
                s.append(",north=");
                s.append(shape.get(Dir::North));
                s.append(",power=");
                push_decimal(&mut s, if power < 15 { power as u64 } else { 15 });
                s.append(",south=");
                s.append(shape.get(Dir::South));
                s.append(",west=");
                s.append(shape.get(Dir::West));
                s.append("]");
            },
            Block::WallTorch { facing, lit } => {
                s.append("minecraft:redstone_wall_torch[facing=");
                s.append(facing.name());
                s.append(",lit=");
                push_truth(&mut s, lit);
                s.append("]");
            },
            Block::Torch { lit } => {
                s.append("minecraft:redstone_torch[lit=");
                push_truth(&mut s, lit);
                s.append("]");
            },
            Block::Repeater { facing, delay, powered } => {
                s.append("minecraft:repeater[delay=");
                push_decimal(
                    &mut s,
                    if delay < 1 {
                        1
                    } else if delay > 4 {
                        4
                    } else {
                        delay as u64
                    },
                );
                s.append(",facing=");
                s.append(facing.name());
                s.append(",locked=false,powered=");
                push_truth(&mut s, powered);
                s.append("]");
            },
            Block::Lever { face, facing, powered } => {
                s.append("minecraft:lever[face=");
                s.append(face.name());
                s.append(",facing=");
                s.append(facing.name());
                s.append(",powered=");
                push_truth(&mut s, powered);
                s.append("]");
            },
            Block::Lamp { lit } => {
                s.append("minecraft:redstone_lamp[lit=");
                push_truth(&mut s, lit);
                s.append("]");
            },
        }
        assert(s@ =~= state_text(self, shape));
        s
    }
}

/// A direction as it stands in messages.
pub open spec fn dir_label(d: Dir) -> Seq<char> {
    match d {
        Dir::North => "North"@,
        Dir::South => "South"@,
        Dir::West => "West"@,
        Dir::East => "East"@,
    }
}

/// A material as it stands in messages.
pub open spec fn material_label(m: Material) -> Seq<char> {
    match m {
        Material::Gate => "Gate"@,
        Material::Wire => "Wire"@,
        Material::Shield => "Shield"@,
        Material::PortIn => "PortIn"@,
        Material::PortOut => "PortOut"@,
        Material::Clock => "Clock"@,
    }
}

/// A lever's face as it stands in messages.
pub open spec fn face_label(f: Face) -> Seq<char> {
    match f {
        Face::Floor => "Floor"@,
        Face::Wall => "Wall"@,
        Face::Ceiling => "Ceiling"@,
    }
}

/// A block as it stands in messages.
pub open spec fn block_label(b: Block) -> Seq<char> {
    match b {
        Block::Air => "Air"@,
        Block::Solid(m) => "Solid("@ + material_label(m) + ")"@,
        Block::Dust { power } => "Dust { power: "@ + decimal(power as nat) + " }"@,
        Block::WallTorch { facing, lit } => "WallTorch { facing: "@ + dir_label(facing)
            + ", lit: "@ + truth(lit) + " }"@,
        Block::Torch { lit } => "Torch { lit: "@ + truth(lit) + " }"@,
        Block::Repeater { facing, delay, powered } => "Repeater { facing: "@ + dir_label(facing)
            + ", delay: "@ + decimal(delay as nat) + ", powered: "@ + truth(powered) + " }"@,
        Block::Lever { face, facing, powered } => "Lever { face: "@ + face_label(face)
            + ", facing: "@ + dir_label(facing) + ", powered: "@ + truth(powered) + " }"@,
        Block::Lamp { lit } => "Lamp { lit: "@ + truth(lit) + " }"@,
    }
}

/// A position as it stands in messages.
pub open spec fn pos_label(p: Pos) -> Seq<char> {
    "("@ + signed(p.0 as int) + ", "@ + signed(p.1 as int) + ", "@ + signed(p.2 as int) + ")"@
}

/// Append a position.
pub fn push_pos(s: &mut String, p: Pos)
    ensures
        final(s)@ == old(s)@ + pos_label(p),
{
    s.append("(");
    push_signed(s, p.0 as i64);
    s.append(", ");
    push_signed(s, p.1 as i64);
    s.append(", ");
    push_signed(s, p.2 as i64);
    s.append(")");
    assert(s@ =~= old(s)@ + pos_label(p));
}

fn push_dir(s: &mut String, d: Dir)
    ensures
        final(s)@ == old(s)@ + dir_label(d),
{
    match d {
        Dir::North => s.append("North"),
        Dir::South => s.append("South"),
        Dir::West => s.append("West"),
        Dir::East => s.append("East"),
    }
}

fn push_material(s: &mut String, m: Material)
    ensures
        final(s)@ == old(s)@ + material_label(m),
{
    match m {
        Material::Gate => s.append("Gate"),
        Material::Wire => s.append("Wire"),
        Material::Shield => s.append("Shield"),
        Material::PortIn => s.append("PortIn"),
        Material::PortOut => s.append("PortOut"),
        Material::Clock => s.append("Clock"),
    }
}

fn push_face(s: &mut String, f: Face)
    ensures
        final(s)@ == old(s)@ + face_label(f),
{
    match f {
        Face::Floor => s.append("Floor"),
        Face::Wall => s.append("Wall"),
        Face::Ceiling => s.append("Ceiling"),
    }
}

/// Append a block as it stands in messages.
#[verifier::spinoff_prover]
#[verifier::rlimit(60)]
pub fn push_block(s: &mut String, b: Block)
    ensures
        final(s)@ == old(s)@ + block_label(b),
{
    match b {
        Block::Air => s.append("Air"),
        Block::Solid(m) => {
            s.append("Solid(");
            push_material(s, m);
            s.append(")");
        },
        Block::Dust { power } => {
            s.append("Dust { power: ");
            push_decimal(s, power as u64);
            s.append(" }");
        },
        Block::WallTorch { facing, lit } => {
            s.append("WallTorch { facing: ");
            push_dir(s, facing);
            s.append(", lit: ");
            push_truth(s, lit);
            s.append(" }");
        },
        Block::Torch { lit } => {
            s.append("Torch { lit: ");
            push_truth(s, lit);
            s.append(" }");
        },
        Block::Repeater { facing, delay, powered } => {
            s.append("Repeater { facing: ");
            push_dir(s, facing);
            s.append(", delay: ");
            push_decimal(s, delay as u64);
            s.append(", powered: ");
            push_truth(s, powered);
            s.append(" }");
        },
        Block::Lever { face, facing, powered } => {
            s.append("Lever { face: ");
            push_face(s, face);
            s.append(", facing: ");
            push_dir(s, facing);
            s.append(", powered: ");
            push_truth(s, powered);
            s.append(" }");
        },
        Block::Lamp { lit } => {
            s.append("Lamp { lit: ");
            push_truth(s, lit);
            s.append(" }");
        },
    }
    assert(s@ =~= old(s)@ + block_label(b));
}

/// What a placement over another block is refused with.
pub open spec fn collision_text(p: Pos, b: Block, existing: Block) -> Seq<char> {
    "block collision at "@ + pos_label(p) + ": tried to place "@ + block_label(b) + " over "@
        + block_label(existing)
}

fn collision(p: Pos, b: Block, existing: Block) -> (s: String)
    ensures
        s@ == collision_text(p, b, existing),
{
    let mut s = String::from_str("block collision at ");
    push_pos(&mut s, p);
    s.append(": tried to place ");
    push_block(&mut s, b);
    s.append(" over ");
    push_block(&mut s, existing);
    s
}

/// The block at `p`; a cell that was never set is air.
pub open spec fn block_at(cells: Map<Pos, Block>, p: Pos) -> Block {
    if cells.contains_key(p) {
        cells[p]
    } else {
        Block::Air
    }
}

/// A block can be placed at `p`: nothing, air, or the same block is there.
pub open spec fn fits_at(cells: Map<Pos, Block>, p: Pos, b: Block) -> bool {
    block_at(cells, p) == Block::Air || block_at(cells, p) == b
}

/// Every cell has room around it.
pub open spec fn all_interior(cells: Map<Pos, Block>) -> bool {
    forall|p: Pos| #[trigger] cells.contains_key(p) ==> interior(p)
}

/// Whether the component at `n` connects to dust that looks at it in direction `d`.
/// A repeater connects only along its own axis.
pub open spec fn accepts_dust(b: Block, d: Dir) -> bool {
    match b {
        Block::WallTorch { .. } => true,
        Block::Torch { .. } => true,
        Block::Lever { .. } => true,
        Block::Repeater { facing, .. } => d == facing || d == opposite_of(facing),
        _ => false,
    }
}

/// How dust at `p` connects on side `d`.
pub open spec fn conn_at(cells: Map<Pos, Block>, p: Pos, d: Dir) -> Conn {
    let n = beside(p, d);
    let nb = block_at(cells, n);
    if is_dust(nb) || accepts_dust(nb, d) {
        Conn::Side
    } else if opaque_block(nb) {
        if is_dust(block_at(cells, above(n))) && !opaque_block(block_at(cells, above(p))) {
            Conn::Up
        } else {
            Conn::Empty
        }
    } else if is_dust(block_at(cells, below(n))) {
        Conn::Side
    } else {
        Conn::Empty
    }
}

/// The connection shape at `p`.
pub open spec fn shape_at(cells: Map<Pos, Block>, p: Pos) -> DustShape {
    if is_dust(block_at(cells, p)) {
        DustShape {
            north: conn_at(cells, p, Dir::North),
            south: conn_at(cells, p, Dir::South),
            west: conn_at(cells, p, Dir::West),
            east: conn_at(cells, p, Dir::East),
        }
    } else {
        dot()
    }
}

/// `lo` and `hi` are the corners of the smallest box that holds every cell.
pub open spec fn bounding(cells: Map<Pos, Block>, lo: Pos, hi: Pos) -> bool {
    &&& forall|p: Pos| #[trigger]
        cells.contains_key(p) ==> lo.0 <= p.0 <= hi.0 && lo.1 <= p.1 <= hi.1 && lo.2 <= p.2
            <= hi.2
    &&& exists|p: Pos| #[trigger] cells.contains_key(p) && p.0 == lo.0
    &&& exists|p: Pos| #[trigger] cells.contains_key(p) && p.1 == lo.1
    &&& exists|p: Pos| #[trigger] cells.contains_key(p) && p.2 == lo.2
    &&& exists|p: Pos| #[trigger] cells.contains_key(p) && p.0 == hi.0
    &&& exists|p: Pos| #[trigger] cells.contains_key(p) && p.1 == hi.1
    &&& exists|p: Pos| #[trigger] cells.contains_key(p) && p.2 == hi.2
}

spec fn boxes(ps: Seq<Pos>, lo: Pos, hi: Pos) -> bool {
    &&& forall|p: Pos| #[trigger]
        ps.contains(p) ==> lo.0 <= p.0 <= hi.0 && lo.1 <= p.1 <= hi.1 && lo.2 <= p.2 <= hi.2
    &&& exists|p: Pos| #[trigger] ps.contains(p) && p.0 == lo.0
    &&& exists|p: Pos| #[trigger] ps.contains(p) && p.1 == lo.1
    &&& exists|p: Pos| #[trigger] ps.contains(p) && p.2 == lo.2
    &&& exists|p: Pos| #[trigger] ps.contains(p) && p.0 == hi.0
    &&& exists|p: Pos| #[trigger] ps.contains(p) && p.1 == hi.1
    &&& exists|p: Pos| #[trigger] ps.contains(p) && p.2 == hi.2
}

proof fn lemma_boxes(ps: Seq<Pos>, p: Pos, lo: Pos, hi: Pos)
    requires
        boxes(ps, lo, hi),
    ensures
        boxes(
            ps.push(p),
            (
                if p.0 < lo.0 { p.0 } else { lo.0 },
                if p.1 < lo.1 { p.1 } else { lo.1 },
                if p.2 < lo.2 { p.2 } else { lo.2 },
            ),
            (
                if p.0 > hi.0 { p.0 } else { hi.0 },
                if p.1 > hi.1 { p.1 } else { hi.1 },
                if p.2 > hi.2 { p.2 } else { hi.2 },
            ),
        ),
{
    let next = ps.push(p);
    assert forall|q: Pos| #[trigger] next.contains(q) <==> ps.contains(q) || q == p by {
        if ps.contains(q) {
            let i = choose|i: int| 0 <= i < ps.len() && ps[i] == q;
            assert(next[i] == q);
        }
        assert(next[ps.len() as int] == p);
    }
    assert(next.contains(p));
    assert forall|q: Pos| #[trigger] ps.contains(q) implies next.contains(q) by {}
}

/// A sparse voxel grid. Circuits are mostly air, so only the cells that were set
/// are held.
#[derive(Debug)]
pub struct Grid {
    cells: PosMap<Block>,
}

impl View for Grid {
    type V = Map<Pos, Block>;

    closed spec fn view(&self) -> Map<Pos, Block> {
        self.cells@
    }
}

impl Clone for Grid {
    fn clone(&self) -> (g: Grid)
        ensures
            g@ == self@,
    {
        Grid { cells: self.cells.clone() }
    }
}

impl Default for Grid {
    fn default() -> (g: Grid)
        ensures
            g@ == Map::<Pos, Block>::empty(),
    {
        Grid { cells: PosMap::new() }
    }
}

impl Grid {
    pub fn new() -> (g: Grid)
        ensures
            g@ == Map::<Pos, Block>::empty(),
    {
        Grid { cells: PosMap::new() }
    }

    pub fn get(&self, p: Pos) -> (b: Block)
        ensures
            b == block_at(self@, p),
    {
        match self.cells.get(p) {
            Some(b) => *b,
            None => Block::Air,
        }
    }

    /// Place a block, refusing to silently clobber an existing non-air block.
    /// Placement/routing bugs otherwise show up as mysterious logic errors much
    /// later, so this fails loudly at the point of the collision.
    pub fn set(&mut self, p: Pos, b: Block) -> (r: Result<(), String>)
        ensures
            match r {
                Ok(_) => fits_at(old(self)@, p, b) && final(self)@ == old(self)@.insert(p, b),
                Err(m) => !fits_at(old(self)@, p, b) && final(self)@ == old(self)@ && m@
                    == collision_text(p, b, block_at(old(self)@, p)),
            },
    {
        let existing = self.get(p);
        if existing != b && existing != Block::Air {
            return Err(collision(p, b, existing));
        }
        self.cells.insert(p, b);
        Ok(())
    }

    /// Place without the collision check, for deliberate overwrites.
    pub fn force(&mut self, p: Pos, b: Block)
        ensures
            final(self)@ == old(self)@.insert(p, b),
    {
        self.cells.insert(p, b);
    }

    /// Forget the cell at `p`.
    pub fn clear(&mut self, p: Pos)
        ensures
            final(self)@ == old(self)@.remove(p),
    {
        self.cells.remove(p);
    }

    pub fn is_free(&self, p: Pos) -> (r: bool)
        ensures
            r == (block_at(self@, p) == Block::Air),
    {
        self.get(p) == Block::Air
    }

    /// The cells, by layer, then by row, then along the row.
    pub fn iter(&self) -> (r: Vec<(Pos, Block)>)
        ensures
            by_layer(r@.map_values(|c: (Pos, Block)| c.0)),
            forall|p: Pos| #[trigger] self@.contains_key(p) <==> r@.contains((p, block_at(self@, p))),
            forall|i: int| 0 <= i < r@.len() ==> self@.contains_key((#[trigger] r@[i]).0) && r@[i].1 == self@[r@[i].0],
    {
        let ps = self.cells.sorted_positions();
        let mut r: Vec<(Pos, Block)> = Vec::new();
        for i in 0..ps.len()
            invariant
                forall|p: Pos| #[trigger] self@.contains_key(p) <==> ps@.contains(p),
                r@.len() == i,
                forall|j: int| 0 <= j < i ==> (#[trigger] r@[j]).0 == ps@[j] && self@.contains_key(ps@[j]) && r@[j].1 == self@[ps@[j]],
        {
            assert(ps@.contains(ps@[i as int]));
            r.push((ps[i], self.get(ps[i])));
        }
        proof {
            assert(r@.map_values(|c: (Pos, Block)| c.0) =~= ps@);
            assert forall|p: Pos| #[trigger] self@.contains_key(p) implies r@.contains((p, block_at(self@, p))) by {
                let j = choose|j: int| 0 <= j < ps@.len() && ps@[j] == p;
                assert(r@[j] == (p, block_at(self@, p)));
            }
        }
        r
    }

    pub fn len(&self) -> (n: usize)
        ensures
            self@.dom().finite(),
            n == self@.dom().len(),
    {
        self.cells.len()
    }

    pub fn is_empty(&self) -> (r: bool)
        ensures
            r == (self@ == Map::<Pos, Block>::empty()),
    {
        self.cells.is_empty()
    }

    /// Inclusive bounding box (min, max), or None for an empty grid.
    pub fn bounds(&self) -> (r: Option<(Pos, Pos)>)
        ensures
            match r {
                Some((lo, hi)) => bounding(self@, lo, hi),
                None => self@ == Map::<Pos, Block>::empty(),
            },
    {
        let ps = self.cells.positions();
        if ps.len() == 0 {
            assert(self@ =~= Map::<Pos, Block>::empty());
            return None;
        }
        let mut lo: Pos = ps[0];
        let mut hi: Pos = ps[0];
        proof {
            let first = ps@.take(1);
            assert(first[0] == lo);
            assert(first.contains(lo));
        }
        for i in 1..ps.len()
            invariant
                ps@.len() > 0,
                boxes(ps@.take(i as int), lo, hi),
        {
            let p: Pos = ps[i];
            let ghost before = ps@.take(i as int);
            let ghost after = ps@.take(i + 1);
            proof {
                assert(after =~= before.push(p));
                lemma_boxes(before, p, lo, hi);
            }
            lo = (
                if p.0 < lo.0 { p.0 } else { lo.0 },
                if p.1 < lo.1 { p.1 } else { lo.1 },
                if p.2 < lo.2 { p.2 } else { lo.2 },
            );
            hi = (
                if p.0 > hi.0 { p.0 } else { hi.0 },
                if p.1 > hi.1 { p.1 } else { hi.1 },
                if p.2 > hi.2 { p.2 } else { hi.2 },
            );
        }
        proof {
            assert(ps@.take(ps@.len() as int) =~= ps@);
            assert forall|p: Pos| #[trigger] ps@.contains(p) implies self@.contains_key(p) by {}
        }
        Some((lo, hi))
    }

    /// Compute the connection shape of the dust at `p`.
    ///
    /// Rules (Minecraft Java):
    /// - connect SIDE to an adjacent dust, or an adjacent component that accepts
    ///   dust (torch, lever, or a repeater whose input or output faces us);
    /// - connect UP if the neighbor is opaque, carries dust on top, and the block
    ///   directly above us is not opaque (an opaque roof blocks the climb);
    /// - connect DOWN (rendered as `side`) if the neighbor is non-opaque and has
    ///   dust one level below.
    pub fn dust_shape(&self, p: Pos) -> (shape: DustShape)
        requires
            is_dust(block_at(self@, p)) ==> interior(p),
        ensures
            shape == shape_at(self@, p),
    {
        if !self.get(p).is_dust() {
            return DustShape {
                north: Conn::Empty,
                south: Conn::Empty,
                west: Conn::Empty,
                east: Conn::Empty,
            };
        }
        let roofed = self.get(up(p)).is_opaque();
        DustShape {
            north: self.connection(p, Dir::North, roofed),
            south: self.connection(p, Dir::South, roofed),
            west: self.connection(p, Dir::West, roofed),
            east: self.connection(p, Dir::East, roofed),
        }
    }

    /// How dust at `p` connects on side `d`.
    fn connection(&self, p: Pos, d: Dir, roofed: bool) -> (c: Conn)
        requires
            interior(p),
            roofed == opaque_block(block_at(self@, above(p))),
        ensures
            c == conn_at(self@, p, d),
    {
        let n = offset(p, d);
        let nb = self.get(n);
        if nb.is_dust() || self.accepts_dust_side(n, d) {
            Conn::Side
        } else if nb.is_opaque() && self.get(up(n)).is_dust() && !roofed {
            Conn::Up
        } else if !nb.is_opaque() && self.get(down(n)).is_dust() {
            Conn::Side
        } else {
            Conn::Empty
        }
    }

    /// Whether the component at `n` connects to dust approaching from direction `d`
    /// (i.e. the dust is at `n - d`).
    fn accepts_dust_side(&self, n: Pos, d: Dir) -> (r: bool)
        ensures
            r == accepts_dust(block_at(self@, n), d),
    {
        match self.get(n) {
            Block::WallTorch { .. } => true,
            Block::Torch { .. } => true,
            Block::Lever { .. } => true,
            Block::Repeater { facing, .. } => d == facing || d == facing.opposite(),
            _ => false,
        }
    }
}

} // verus!
