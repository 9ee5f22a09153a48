//! Plain data about loaded images: identifiers, list entries, size limits, and
//! the pixels of the chessboard images offered for trying things out.
use vstd::prelude::*;

verus! {

/// The identifier of an image in a storage.
#[derive(PartialEq, Clone, Eq, PartialOrd, Ord, Debug, Hash)]
pub struct ImageId(pub String);

impl ImageId {
    pub fn new(s: &str) -> (id: Self)
        ensures
            id.0@ == s@,
    {
        ImageId(s.to_owned())
    }

    pub fn as_str(&self) -> (s: &str)
        ensures
            s@ == self.0@,
    {
        self.0.as_str()
    }
}

/// An entry of the list of images of a storage.
#[derive(Debug)]
pub struct ImageListTaskItem {
    pub id: ImageId,
    pub name: String,
    pub has_masks: bool,
}

/// Options of the viewer state.
#[derive(Debug)]
pub struct StateConfig {
    pub reset_viewport_on_image_load: bool,
}

impl Default for StateConfig {
    fn default() -> (c: Self)
        ensures
            !c.reset_viewport_on_image_load,
    {
        Self { reset_viewport_on_image_load: false }
    }
}

/// An image is too large for a texture of the graphics backend.
#[derive(Debug)]
pub struct TextureExceedsLimit {
    pub width: u32,
    pub height: u32,
    pub max_texture_side: usize,
}

impl TextureExceedsLimit {
    pub fn new(width: u32, height: u32, max_texture_side: usize) -> (e: Self)
        ensures
            e.width == width,
            e.height == height,
            e.max_texture_side == max_texture_side,
    {
        Self { width, height, max_texture_side }
    }

    /// The message of the error: `Image too large: {width}x{height}, max
    /// texture side is {max_texture_side}`, numbers in decimal.
    pub fn message(&self) -> (m: Vec<char>)
        ensures
            m@ == "Image too large: "@ + decimal(self.width as nat) + "x"@ + decimal(self.height as nat)
                + ", max texture side is "@ + decimal(self.max_texture_side as nat),
    {
        let mut m: Vec<char> = Vec::new();
        push_str(&mut m, "Image too large: ");
        push_decimal(&mut m, self.width as u64);
        push_str(&mut m, "x");
        push_decimal(&mut m, self.height as u64);
        push_str(&mut m, ", max texture side is ");
        push_decimal(&mut m, self.max_texture_side as u64);
        m
    }
}

/// The decimal digit of `d % 10`.
pub open spec fn digit(d: nat) -> char {
    ((d % 10) + 48) as char
}

/// The decimal digits of `n`, most significant first.
pub open spec fn decimal(n: nat) -> Seq<char>
    decreases n,
{
    if n < 10 {
        seq![digit(n)]
    } else {
        decimal(n / 10).push(digit(n % 10))
    }
}

fn push_decimal(out: &mut Vec<char>, n: u64)
    ensures
        final(out)@ == old(out)@ + decimal(n as nat),
    decreases n,
{
    if n >= 10 {
        push_decimal(out, n / 10);
    }
    let d: u8 = (n % 10) as u8 + 48;
    out.push(d as char);
    proof {
        assert(d as char == digit((n % 10) as nat));
    }
}

fn push_str(out: &mut Vec<char>, s: &str)
    ensures
        final(out)@ == old(out)@ + s@,
{
    let ghost start = out@;
    for c in it: s.chars()
        invariant
            it.seq() == s@,
            out@ == start + s@.take(it.index() as int),
    {
        proof {
            assert(s@.take(it.index() + 1) =~= s@.take(it.index() as int).push(c));
        }
        out.push(c);
    }
    proof {
        assert(s@.take(s@.len() as int) =~= s@);
    }
}

/// Refuses an image whose width or height exceeds the longest texture side.
pub fn check_texture_size(width: u32, height: u32, max_texture_side: usize) -> (r: Result<(), TextureExceedsLimit>)
    ensures
        r is Ok <==> (width <= max_texture_side && height <= max_texture_side),
        r matches Err(e) ==> e.width == width && e.height == height && e.max_texture_side == max_texture_side,
{
    if width as usize > max_texture_side || height as usize > max_texture_side {
        return Err(TextureExceedsLimit::new(width, height, max_texture_side));
    }
    Ok(())
}

/// The grey value of the pixel in column `x` and row `y` of a chessboard with
/// squares of `square` pixels: `first` where the square's column and row add
/// up to an even number, `second` elsewhere.
pub open spec fn chessboard_value(x: int, y: int, square: int, first: u8, second: u8) -> u8 {
    if (x / square + y / square) % 2 == 0 {
        first
    } else {
        second
    }
}

/// The three channels of `p` are all `c`.
pub open spec fn is_grey(p: [u8; 3], c: u8) -> bool {
    p@[0] == c && p@[1] == c && p@[2] == c
}

/// The pixels of a `width` x `height` chessboard, row by row.
pub fn chessboard_pixels(width: u32, height: u32, square_size: u32, first: u8, second: u8) -> (v: Vec<[u8; 3]>)
    requires
        square_size > 0,
        width * height <= usize::MAX,
    ensures
        v.len() == width * height,
        forall|k: int|
            0 <= k < v.len() ==> is_grey(
                #[trigger] v@[k],
                chessboard_value(k % width as int, k / width as int, square_size as int, first, second),
            ),
{
    let mut v: Vec<[u8; 3]> = Vec::new();
    let mut y: u32 = 0;
    while y < height
        invariant
            y <= height,
            square_size > 0,
            width * height <= usize::MAX,
            v.len() == y * width,
            forall|k: int|
                0 <= k < v.len() ==> is_grey(
                    #[trigger] v@[k],
                    chessboard_value(k % width as int, k / width as int, square_size as int, first, second),
                ),
        decreases height - y,
    {
        proof {
            assert((y + 1) * width <= height * width) by (nonlinear_arith)
                requires
                    y + 1 <= height,
            ;
            assert((y + 1) * width == y * width + width) by (nonlinear_arith);
        }
        let mut x: u32 = 0;
        while x < width
            invariant
                x <= width,
                y < height,
                square_size > 0,
                y * width + width <= usize::MAX,
                v.len() == y * width + x,
                forall|k: int|
                    0 <= k < v.len() ==> is_grey(
                        #[trigger] v@[k],
                        chessboard_value(k % width as int, k / width as int, square_size as int, first, second),
                    ),
            decreases width - x,
        {
            let sum: u64 = (x / square_size) as u64 + (y / square_size) as u64;
            let c: u8 = if sum % 2 == 0 {
                first
            } else {
                second
            };
            proof {
                vstd::arithmetic::div_mod::lemma_fundamental_div_mod_converse(
                    v.len() as int,
                    width as int,
                    y as int,
                    x as int,
                );
            }
            v.push([c, c, c]);
            x = x + 1;
        }
        y = y + 1;
    }
    proof {
        assert(y * width == width * height) by (nonlinear_arith)
            requires
                y == height,
        ;
    }
    v
}

} // verus!
