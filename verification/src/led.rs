//! The LED matrix: its geometry, the production / simulator modes, and the
//! test patterns used to check the physical wiring.
use vstd::prelude::*;
use vstd::string::StringExecFns;
use crate::text::{decimal, push_decimal};
use crate::text::same_text;

verus! {

/// Pixels per row of the matrix.
pub const MATRIX_WIDTH: usize = 128;
/// Rows of the matrix.
pub const MATRIX_HEIGHT: usize = 128;
/// Bytes of an RGB frame of the matrix.
pub const MATRIX_SIZE: usize = 49152;
/// Milliseconds between two frames (about 77 frames per second).
pub const FRAME_TIME_MS: u64 = 13;

/// Where frames go: the physical controllers, or a simulator on this host.
#[derive(Debug, Clone, Copy, PartialEq, Eq, Structural)]
pub enum LedMode {
    Production,
    Simulator,
}

impl Default for LedMode {
    /// Production, always.
    fn default() -> (m: Self)
        ensures
            m == LedMode::Production,
    {
        LedMode::Production
    }
}

/// The patterns that check the wiring of the wall.
#[derive(Debug, Clone, Copy, PartialEq, Eq, Structural)]
pub enum TestPattern {
    AllRed,
    AllGreen,
    AllBlue,
    AllWhite,
    Gradient,
    Checkerboard,
    QuarterTest,
}

impl TestPattern {
    /// Every pattern, in declaration order.
    pub fn all() -> (r: Vec<TestPattern>)
        ensures
            r@ == seq![
                TestPattern::AllRed,
                TestPattern::AllGreen,
                TestPattern::AllBlue,
                TestPattern::AllWhite,
                TestPattern::Gradient,
                TestPattern::Checkerboard,
                TestPattern::QuarterTest,
            ],
    {
        let r = vec![
            TestPattern::AllRed,
            TestPattern::AllGreen,
            TestPattern::AllBlue,
            TestPattern::AllWhite,
            TestPattern::Gradient,
            TestPattern::Checkerboard,
            TestPattern::QuarterTest,
        ];
        assert(r@ =~= seq![
            TestPattern::AllRed,
            TestPattern::AllGreen,
            TestPattern::AllBlue,
            TestPattern::AllWhite,
            TestPattern::Gradient,
            TestPattern::Checkerboard,
            TestPattern::QuarterTest,
        ]);
        r
    }

    /// The display name of the pattern.
    pub fn name(&self) -> (s: &'static str)
        ensures
            s@ == match *self {
                TestPattern::AllRed => "Rouge Production"@,
                TestPattern::AllGreen => "Vert Production"@,
                TestPattern::AllBlue => "Bleu Production"@,
                TestPattern::AllWhite => "Blanc Production"@,
                TestPattern::Gradient => "Dégradé Production"@,
                TestPattern::Checkerboard => "Damier Production"@,
                TestPattern::QuarterTest => "Test Quarts Production"@,
            },
    {
        match self {
            TestPattern::AllRed => "Rouge Production",
            TestPattern::AllGreen => "Vert Production",
            TestPattern::AllBlue => "Bleu Production",
            TestPattern::AllWhite => "Blanc Production",
            TestPattern::Gradient => "Dégradé Production",
            TestPattern::Checkerboard => "Damier Production",
            TestPattern::QuarterTest => "Test Quarts Production",
        }
    }

    /// What the pattern shows.
    pub fn description(&self) -> (s: &'static str)
        ensures
            s@ == match *self {
                TestPattern::AllRed => "Toutes les LEDs physiques en rouge"@,
                TestPattern::AllGreen => "Toutes les LEDs physiques en vert"@,
                TestPattern::AllBlue => "Toutes les LEDs physiques en bleu"@,
                TestPattern::AllWhite => "Toutes les LEDs physiques en blanc"@,
                TestPattern::Gradient => "Dégradé horizontal sur écran physique"@,
                TestPattern::Checkerboard => "Pattern damier sur écran physique"@,
                TestPattern::QuarterTest => "Test par contrôleur (4 quarts)"@,
            },
    {
        match self {
            TestPattern::AllRed => "Toutes les LEDs physiques en rouge",
            TestPattern::AllGreen => "Toutes les LEDs physiques en vert",
            TestPattern::AllBlue => "Toutes les LEDs physiques en bleu",
            TestPattern::AllWhite => "Toutes les LEDs physiques en blanc",
            TestPattern::Gradient => "Dégradé horizontal sur écran physique",
            TestPattern::Checkerboard => "Pattern damier sur écran physique",
            TestPattern::QuarterTest => "Test par contrôleur (4 quarts)",
        }
    }

    /// The pattern name the controller sends for this pattern (the quarter
    /// test is sent as a gradient).
    pub fn pattern_key(&self) -> (s: &'static str)
        ensures
            s@ == match *self {
                TestPattern::AllRed => "red"@,
                TestPattern::AllGreen => "green"@,
                TestPattern::AllBlue => "blue"@,
                TestPattern::AllWhite => "white"@,
                TestPattern::Gradient => "gradient"@,
                TestPattern::Checkerboard => "checkerboard"@,
                TestPattern::QuarterTest => "gradient"@,
            },
    {
        match self {
            TestPattern::AllRed => "red",
            TestPattern::AllGreen => "green",
            TestPattern::AllBlue => "blue",
            TestPattern::AllWhite => "white",
            TestPattern::Gradient => "gradient",
            TestPattern::Checkerboard => "checkerboard",
            TestPattern::QuarterTest => "gradient",
        }
    }
}

/// The message that rejects a frame of `len` bytes where `expected` were due.
pub open spec fn frame_size_message(len: usize, expected: usize) -> Seq<char> {
    "PRODUCTION: Taille frame invalide: "@ + decimal(len as nat) + " (attendu "@ + decimal(expected as nat) + ")"@
}

/// The rejection of a frame of `len` bytes (see `frame_size_message`).
fn frame_size_error(len: usize, expected: usize) -> (s: String)
    ensures
        s@ == frame_size_message(len, expected),
{
    let mut s = String::from_str("PRODUCTION: Taille frame invalide: ");
    push_decimal(&mut s, len);
    s.append(" (attendu ");
    push_decimal(&mut s, expected);
    s.append(")");
    s
}

/// Accepts exactly the frames of the matrix's size.
pub fn validate_frame_size(frame: &[u8]) -> (r: Result<(), String>)
    ensures
        r is Ok <==> frame@.len() == MATRIX_SIZE,
        r matches Err(m) ==> m@ == frame_size_message(frame@.len() as usize, MATRIX_SIZE),
{
    if frame.len() != MATRIX_SIZE {
        return Err(frame_size_error(frame.len(), MATRIX_SIZE));
    }
    Ok(())
}

/// The test patterns `create_test_pattern` knows.
#[derive(Debug, Clone, Copy, PartialEq, Eq, Structural)]
pub enum PatternKind {
    Red,
    Green,
    Blue,
    White,
    Black,
    Gradient,
    Checkerboard,
    Quarter,
}

/// The pattern a name selects; an unknown name selects the gradient.
pub open spec fn pattern_kind(name: Seq<char>) -> PatternKind {
    if name == "red"@ {
        PatternKind::Red
    } else if name == "green"@ {
        PatternKind::Green
    } else if name == "blue"@ {
        PatternKind::Blue
    } else if name == "white"@ {
        PatternKind::White
    } else if name == "black"@ || name == "off"@ {
        PatternKind::Black
    } else if name == "checkerboard"@ {
        PatternKind::Checkerboard
    } else if name == "quarter"@ {
        PatternKind::Quarter
    } else {
        PatternKind::Gradient
    }
}

/// A name that is none of the known pattern names selects the same pattern
/// as "gradient", so `create_test_pattern` gives the gradient for it.
pub proof fn lemma_unknown_pattern_is_gradient(name: Seq<char>)
    requires
        name != "red"@,
        name != "green"@,
        name != "blue"@,
        name != "white"@,
        name != "black"@,
        name != "off"@,
        name != "checkerboard"@,
        name != "quarter"@,
    ensures
        pattern_kind(name) == PatternKind::Gradient,
        pattern_kind(name) == pattern_kind("gradient"@),
{
    reveal_strlit("gradient");
    reveal_strlit("red");
    reveal_strlit("green");
    reveal_strlit("blue");
    reveal_strlit("white");
    reveal_strlit("black");
    reveal_strlit("off");
    reveal_strlit("checkerboard");
    reveal_strlit("quarter");
    assert("gradient"@.len() == 8);
    assert("red"@.len() == 3 && "green"@.len() == 5 && "blue"@.len() == 4 && "white"@.len() == 5);
    assert("black"@.len() == 5 && "off"@.len() == 3 && "checkerboard"@.len() == 12 && "quarter"@.len() == 7);
}

/// `create_test_pattern` asks the same of an unknown name as of
/// "gradient", and gives the same frame for it, at every size.
pub proof fn lemma_unknown_pattern_frame(name: Seq<char>, width: nat, height: nat)
    requires
        name != "red"@,
        name != "green"@,
        name != "blue"@,
        name != "white"@,
        name != "black"@,
        name != "off"@,
        name != "checkerboard"@,
        name != "quarter"@,
    ensures
        pattern_kind(name) == pattern_kind("gradient"@),
        pattern_rows(pattern_kind(name), width, height) == pattern_rows(
            pattern_kind("gradient"@),
            width,
            height,
        ),
{
    lemma_unknown_pattern_is_gradient(name);
}

/// The pattern a name selects (see `pattern_kind`).
pub fn pattern_kind_of(name: &str) -> (k: PatternKind)
    ensures
        k == pattern_kind(name@),
{
    if same_text(name, "red") {
        PatternKind::Red
    } else if same_text(name, "green") {
        PatternKind::Green
    } else if same_text(name, "blue") {
        PatternKind::Blue
    } else if same_text(name, "white") {
        PatternKind::White
    } else if same_text(name, "black") || same_text(name, "off") {
        PatternKind::Black
    } else if same_text(name, "checkerboard") {
        PatternKind::Checkerboard
    } else if same_text(name, "quarter") {
        PatternKind::Quarter
    } else {
        PatternKind::Gradient
    }
}

/// The red level of column `x` in a gradient `width` pixels wide.
pub open spec fn gradient_level(x: int, width: int) -> u8 {
    (x * 255 / (if width > 1 { width } else { 1 })) as u8
}

/// The colour of pixel (`x`, `y`) of a pattern `width` pixels wide.
pub open spec fn pattern_pixel(kind: PatternKind, width: int, x: int, y: int) -> Seq<u8> {
    match kind {
        PatternKind::Red => seq![255u8, 0u8, 0u8],
        PatternKind::Green => seq![0u8, 255u8, 0u8],
        PatternKind::Blue => seq![0u8, 0u8, 255u8],
        PatternKind::White => seq![255u8, 255u8, 255u8],
        PatternKind::Black => seq![0u8, 0u8, 0u8],
        PatternKind::Gradient => {
            let i = gradient_level(x, width);
            seq![i, (i / 2) as u8, (255 - i) as u8]
        },
        PatternKind::Checkerboard => if (x / 8 + y / 8) % 2 == 0 { seq![255u8, 255u8, 255u8] } else { seq![0u8, 0u8, 0u8] },
        PatternKind::Quarter => {
            let q = (x / 32) % 4;
            if q == 0 {
                seq![255u8, 0u8, 0u8]
            } else if q == 1 {
                seq![0u8, 255u8, 0u8]
            } else if q == 2 {
                seq![0u8, 0u8, 255u8]
            } else {
                seq![255u8, 255u8, 255u8]
            }
        },
    }
}

/// The first `n` pixels of row `y`.
pub open spec fn pattern_row(kind: PatternKind, width: int, y: int, n: nat) -> Seq<u8>
    decreases n,
{
    if n == 0 { Seq::empty() } else { pattern_row(kind, width, y, (n - 1) as nat) + pattern_pixel(kind, width, n - 1, y) }
}

/// The first `n` rows of a pattern `width` pixels wide.
pub open spec fn pattern_rows(kind: PatternKind, width: nat, n: nat) -> Seq<u8>
    decreases n,
{
    if n == 0 { Seq::empty() } else { pattern_rows(kind, width, (n - 1) as nat) + pattern_row(kind, width as int, n - 1, width) }
}

/// Every pixel of a pattern is three bytes.
proof fn lemma_pattern_pixel_len(kind: PatternKind, width: int, x: int, y: int)
    ensures
        pattern_pixel(kind, width, x, y).len() == 3,
{
}

/// Byte `c` of pixel `x` of a row is byte `c` of that pixel's colour.
proof fn lemma_pattern_row_at(kind: PatternKind, width: int, y: int, n: nat)
    ensures
        pattern_row(kind, width, y, n).len() == 3 * n,
        forall|x: int, c: int| 0 <= x < n && 0 <= c < 3 ==>
            #[trigger] pattern_row(kind, width, y, n)[3 * x + c] == pattern_pixel(kind, width, x, y)[c],
    decreases n,
{
    if n > 0 {
        lemma_pattern_row_at(kind, width, y, (n - 1) as nat);
        lemma_pattern_pixel_len(kind, width, n - 1, y);
        let prev = pattern_row(kind, width, y, (n - 1) as nat);
        assert forall|x: int, c: int| 0 <= x < n && 0 <= c < 3 implies
            #[trigger] pattern_row(kind, width, y, n)[3 * x + c] == pattern_pixel(kind, width, x, y)[c] by {
            if x < n - 1 {
                assert(prev[3 * x + c] == pattern_pixel(kind, width, x, y)[c]);
            }
        }
    }
}

/// Byte `c` of pixel (`x`, `y`) of a pattern frame `width` pixels wide lies
/// at `3 (y width + x) + c` and is byte `c` of that pixel's colour.
pub proof fn lemma_pattern_rows_at(kind: PatternKind, width: nat, n: nat)
    ensures
        pattern_rows(kind, width, n).len() == 3 * width * n,
        forall|x: int, y: int, c: int| 0 <= x < width && 0 <= y < n && 0 <= c < 3 ==>
            #[trigger] pattern_rows(kind, width, n)[3 * (y * width + x) + c] == pattern_pixel(kind, width as int, x, y)[c],
    decreases n,
{
    if n > 0 {
        let n1 = (n - 1) as nat;
        lemma_pattern_rows_at(kind, width, n1);
        lemma_pattern_row_at(kind, width as int, n1 as int, width);
        let prev = pattern_rows(kind, width, n1);
        assert(3 * width * n == 3 * width * n1 + 3 * width) by (nonlinear_arith)
            requires
                n == n1 + 1,
        ;
        assert forall|x: int, y: int, c: int| 0 <= x < width && 0 <= y < n && 0 <= c < 3 implies
            #[trigger] pattern_rows(kind, width, n)[3 * (y * width + x) + c] == pattern_pixel(kind, width as int, x, y)[c] by {
            if y < n1 {
                assert(3 * (y * width + x) + c < 3 * width * n1) by (nonlinear_arith)
                    requires
                        0 <= x < width,
                        0 <= y < n1,
                        0 <= c < 3,
                ;
                assert(prev[3 * (y * width + x) + c] == pattern_pixel(kind, width as int, x, y)[c]);
            } else {
                assert(3 * (y * width + x) + c == 3 * width * n1 + (3 * x + c)) by (nonlinear_arith)
                    requires
                        y == n1,
                ;
                assert(pattern_row(kind, width as int, n1 as int, width)[3 * x + c] == pattern_pixel(kind, width as int, x, y)[c]);
            }
        }
    }
}

/// The checkerboard is made of 8 x 8 cells: byte `c` of pixel (`x`, `y`)
/// is 255 (white) when `x / 8 + y / 8` is even and 0 (black) otherwise, so
/// every pixel of a cell has the same colour and neighbouring cells differ.
pub proof fn lemma_checkerboard_cells(width: nat, height: nat)
    ensures
        pattern_rows(PatternKind::Checkerboard, width, height).len() == 3 * width * height,
        forall|x: int, y: int, c: int| 0 <= x < width && 0 <= y < height && 0 <= c < 3 ==>
            #[trigger] pattern_rows(PatternKind::Checkerboard, width, height)[3 * (y * width + x) + c]
                == if (x / 8 + y / 8) % 2 == 0 { 255u8 } else { 0u8 },
        forall|x1: int, y1: int, x2: int, y2: int, c: int|
            0 <= x1 < width && 0 <= y1 < height && 0 <= x2 < width && 0 <= y2 < height && 0 <= c < 3
            && x1 / 8 == x2 / 8 && y1 / 8 == y2 / 8 ==>
            #[trigger] pattern_rows(PatternKind::Checkerboard, width, height)[3 * (y1 * width + x1) + c]
                == #[trigger] pattern_rows(PatternKind::Checkerboard, width, height)[3 * (y2 * width + x2) + c],
{
    lemma_pattern_rows_at(PatternKind::Checkerboard, width, height);
}

/// The colour of each pixel (`x`, `y`) of every test pattern, byte by byte
/// at `3 (y width + x)`: red, green, blue, white and black fill the frame
/// with one colour; the gradient's red rises with the column as
/// `255 x / width`, its green is half the red and its blue is the rest to
/// 255; the quarter pattern shows red, green, blue and white in bands of 32
/// columns.
pub proof fn lemma_pattern_colours(kind: PatternKind, width: nat, height: nat)
    ensures
        pattern_rows(kind, width, height).len() == 3 * width * height,
        forall|x: int, y: int|
            #![trigger pattern_rows(kind, width, height)[3 * (y * width + x)]]
            0 <= x < width && 0 <= y < height ==> {
            let f = pattern_rows(kind, width, height);
            let i = 3 * (y * width + x);
            let rgb: (u8, u8, u8) = (f[i], f[i + 1], f[i + 2]);
            let g = x * 255 / (if width > 1 { width as int } else { 1 });
            let q = (x / 32) % 4;
            match kind {
                PatternKind::Red => rgb == (255u8, 0u8, 0u8),
                PatternKind::Green => rgb == (0u8, 255u8, 0u8),
                PatternKind::Blue => rgb == (0u8, 0u8, 255u8),
                PatternKind::White => rgb == (255u8, 255u8, 255u8),
                PatternKind::Black => rgb == (0u8, 0u8, 0u8),
                PatternKind::Gradient => rgb.0 == g && rgb.1 == g / 2 && rgb.2 == 255 - g,
                PatternKind::Checkerboard => rgb == if (x / 8 + y / 8) % 2 == 0 { (255u8, 255u8, 255u8) } else { (0u8, 0u8, 0u8) },
                PatternKind::Quarter => rgb == if q == 0 {
                    (255u8, 0u8, 0u8)
                } else if q == 1 {
                    (0u8, 255u8, 0u8)
                } else if q == 2 {
                    (0u8, 0u8, 255u8)
                } else {
                    (255u8, 255u8, 255u8)
                },
            }
        },
{
    lemma_pattern_rows_at(kind, width, height);
    assert forall|x: int, y: int|
        #![trigger pattern_rows(kind, width, height)[3 * (y * width + x)]]
        0 <= x < width && 0 <= y < height implies {
        let f = pattern_rows(kind, width, height);
        let i = 3 * (y * width + x);
        let rgb: (u8, u8, u8) = (f[i], f[i + 1], f[i + 2]);
        let g = x * 255 / (if width > 1 { width as int } else { 1 });
        let q = (x / 32) % 4;
        match kind {
            PatternKind::Red => rgb == (255u8, 0u8, 0u8),
            PatternKind::Green => rgb == (0u8, 255u8, 0u8),
            PatternKind::Blue => rgb == (0u8, 0u8, 255u8),
            PatternKind::White => rgb == (255u8, 255u8, 255u8),
            PatternKind::Black => rgb == (0u8, 0u8, 0u8),
            PatternKind::Gradient => rgb.0 == g && rgb.1 == g / 2 && rgb.2 == 255 - g,
            PatternKind::Checkerboard => rgb == if (x / 8 + y / 8) % 2 == 0 { (255u8, 255u8, 255u8) } else { (0u8, 0u8, 0u8) },
            PatternKind::Quarter => rgb == if q == 0 {
                (255u8, 0u8, 0u8)
            } else if q == 1 {
                (0u8, 255u8, 0u8)
            } else if q == 2 {
                (0u8, 0u8, 255u8)
            } else {
                (255u8, 255u8, 255u8)
            },
        }
    } by {
        let f = pattern_rows(kind, width, height);
        let i = 3 * (y * width + x);
        assert(f[i + 0] == pattern_pixel(kind, width as int, x, y)[0]);
        assert(f[i + 1] == pattern_pixel(kind, width as int, x, y)[1]);
        assert(f[i + 2] == pattern_pixel(kind, width as int, x, y)[2]);
        assert(i + 0 == i);
        let g = x * 255 / (if width > 1 { width as int } else { 1 });
        if kind == PatternKind::Gradient {
            assert(0 <= g < 256) by (nonlinear_arith)
                requires
                    g == x * 255 / (if width > 1 { width as int } else { 1 }),
                    0 <= x < width,
            ;
        }
    }
}

/// The three bytes of pixel (`x`, `y`) of a pattern `width` pixels wide.
fn pixel_of(kind: PatternKind, width: usize, x: usize, y: usize) -> (p: [u8; 3])
    requires
        x < width,
        kind == PatternKind::Gradient ==> x * 255 <= usize::MAX,
    ensures
        p@ == pattern_pixel(kind, width as int, x as int, y as int),
{
    let p = match kind {
        PatternKind::Red => [255u8, 0, 0],
        PatternKind::Green => [0u8, 255, 0],
        PatternKind::Blue => [0u8, 0, 255],
        PatternKind::White => [255u8, 255, 255],
        PatternKind::Black => [0u8, 0, 0],
        PatternKind::Gradient => {
            let w = if width > 1 { width } else { 1 };
            assert(x * 255 / (w as int) < 256) by (nonlinear_arith)
                requires
                    x < width,
                    w >= width,
                    w >= 1,
            ;
            let intensity = (x * 255 / w) as u8;
            [intensity, intensity / 2, 255 - intensity]
        },
        PatternKind::Checkerboard => {
            if (x / 8 + y / 8) % 2 == 0 { [255u8, 255, 255] } else { [0u8, 0, 0] }
        },
        PatternKind::Quarter => {
            let q = (x / 32) % 4;
            if q == 0 {
                [255u8, 0, 0]
            } else if q == 1 {
                [0u8, 255, 0]
            } else if q == 2 {
                [0u8, 0, 255]
            } else {
                [255u8, 255, 255]
            }
        },
    };
    assert(p@ =~= pattern_pixel(kind, width as int, x as int, y as int));
    p
}

/// The test frame named `pattern`, `width` x `height` pixels (see
/// `pattern_pixel`); an unknown name gives the gradient.
pub fn create_test_pattern(pattern: &str, width: usize, height: usize) -> (frame: Vec<u8>)
    requires
        width * height * 3 <= usize::MAX,
        pattern_kind(pattern@) == PatternKind::Gradient && height > 0 && width > 0
            ==> (width - 1) * 255 <= usize::MAX,
    ensures
        frame@ == pattern_rows(pattern_kind(pattern@), width as nat, height as nat),
        frame@.len() == 3 * width * height,
        pattern_kind(pattern@) == PatternKind::Checkerboard ==> forall|x: int, y: int, c: int|
            0 <= x < width && 0 <= y < height && 0 <= c < 3 ==>
            #[trigger] frame@[3 * (y * width + x) + c] == if (x / 8 + y / 8) % 2 == 0 { 255u8 } else { 0u8 },
{
    proof {
        lemma_pattern_rows_at(pattern_kind(pattern@), width as nat, height as nat);
        lemma_checkerboard_cells(width as nat, height as nat);
    }
    let kind = pattern_kind_of(pattern);
    let mut frame: Vec<u8> = Vec::new();
    let mut y: usize = 0;
    while y < height
        invariant
            y <= height,
            kind == PatternKind::Gradient && height > 0 && width > 0 ==> (width - 1) * 255 <= usize::MAX,
            frame@ == pattern_rows(kind, width as nat, y as nat),
        decreases height - y,
    {
        let ghost row_start = frame@;
        let mut x: usize = 0;
        while x < width
            invariant
                x <= width,
                y < height,
                kind == PatternKind::Gradient && width > 0 ==> (width - 1) * 255 <= usize::MAX,
                frame@ == row_start + pattern_row(kind, width as int, y as int, x as nat),
            decreases width - x,
        {
            proof {
                if kind == PatternKind::Gradient {
                    assert(x * 255 <= (width - 1) * 255) by (nonlinear_arith)
                        requires
                            x < width,
                    ;
                }
            }
            let p = pixel_of(kind, width, x, y);
            frame.push(p[0]);
            frame.push(p[1]);
            frame.push(p[2]);
            x = x + 1;
            assert(frame@ =~= row_start + pattern_row(kind, width as int, y as int, x as nat));
        }
        y = y + 1;
        assert(frame@ =~= pattern_rows(kind, width as nat, y as nat));
    }
    frame
}

} // verus!

verus! {

/// The time between frames at `fps` frames per second, in whole
/// milliseconds.
pub fn frame_delay_ms(fps: u32) -> (r: u64)
    requires
        fps > 0,
    ensures
        r == 1000int / (fps as int),
{
    1000 / fps as u64
}

} // verus!

verus! {

/// The Art-Net address of controller `i` (0..4) in `mode`: all four on the
/// local simulator, or the wall's four controllers.
pub open spec fn controller_address(mode: LedMode, i: int) -> Seq<char> {
    match mode {
        LedMode::Simulator => "127.0.0.1:6454"@,
        LedMode::Production => if i == 0 {
            "192.168.1.45:6454"@
        } else if i == 1 {
            "192.168.1.46:6454"@
        } else if i == 2 {
            "192.168.1.47:6454"@
        } else {
            "192.168.1.48:6454"@
        },
    }
}

/// The host of controller `i` in `mode`: its address without the Art-Net
/// port.
pub open spec fn controller_host(mode: LedMode, i: int) -> Seq<char> {
    match mode {
        LedMode::Simulator => "127.0.0.1"@,
        LedMode::Production => if i == 0 {
            "192.168.1.45"@
        } else if i == 1 {
            "192.168.1.46"@
        } else if i == 2 {
            "192.168.1.47"@
        } else {
            "192.168.1.48"@
        },
    }
}

/// The word that names controllers in `mode`.
pub open spec fn mode_word(mode: LedMode) -> Seq<char> {
    match mode {
        LedMode::Simulator => "simulator"@,
        LedMode::Production => "production"@,
    }
}

/// The address and the host of controller `i` in `mode`.
fn controller_strings(mode: LedMode, i: usize) -> (r: (&'static str, &'static str))
    requires
        i < 4,
    ensures
        r.0@ == controller_address(mode, i as int),
        r.1@ == controller_host(mode, i as int),
{
    match mode {
        LedMode::Simulator => ("127.0.0.1:6454", "127.0.0.1"),
        LedMode::Production => if i == 0 {
            ("192.168.1.45:6454", "192.168.1.45")
        } else if i == 1 {
            ("192.168.1.46:6454", "192.168.1.46")
        } else if i == 2 {
            ("192.168.1.47:6454", "192.168.1.47")
        } else {
            ("192.168.1.48:6454", "192.168.1.48")
        },
    }
}

/// The Art-Net addresses of the four controllers in `mode`, in quarter
/// order.
pub fn controller_addresses(mode: LedMode) -> (r: Vec<String>)
    ensures
        r@.len() == 4,
        forall|i: int| 0 <= i < 4 ==> (#[trigger] r@[i])@ == controller_address(mode, i),
{
    let mut r: Vec<String> = Vec::new();
    let mut i: usize = 0;
    while i < 4
        invariant
            i <= 4,
            r@.len() == i,
            forall|k: int| 0 <= k < i ==> (#[trigger] r@[k])@ == controller_address(mode, k),
        decreases 4 - i,
    {
        let (address, _) = controller_strings(mode, i);
        r.push(address.to_owned());
        i = i + 1;
    }
    r
}

/// A controller as the user interface lists it.
#[derive(Debug)]
pub struct DummyController {
    pub id: String,
    pub ip_address: String,
    pub enabled: bool,
}

/// The identifier of controller `index` of the kind named `word`: the word,
/// "_controller_" and the index in decimal.
pub open spec fn controller_id_text(word: Seq<char>, index: usize) -> Seq<char> {
    word + "_controller_"@ + decimal(index as nat)
}

/// The identifier of controller `index` of the kind named `word` (see
/// `controller_id_text`).
fn controller_id(word: &str, index: usize) -> (s: String)
    ensures
        s@ == controller_id_text(word@, index),
{
    let mut s = String::from_str(word);
    s.append("_controller_");
    push_decimal(&mut s, index);
    s
}

/// The four controllers of `mode` as the user interface lists them: an
/// identifier, the host without its port, and enabled.
pub fn get_controllers(mode: LedMode) -> (r: Vec<DummyController>)
    ensures
        r@.len() == 4,
        forall|i: int| 0 <= i < 4 ==> {
            &&& (#[trigger] r@[i]).id@ == controller_id_text(mode_word(mode), i as usize)
            &&& r@[i].ip_address@ == controller_host(mode, i)
            &&& r@[i].enabled
        },
{
    let word: &str = match mode {
        LedMode::Simulator => "simulator",
        LedMode::Production => "production",
    };
    let mut r: Vec<DummyController> = Vec::new();
    let mut i: usize = 0;
    while i < 4
        invariant
            i <= 4,
            word@ == mode_word(mode),
            r@.len() == i,
            forall|k: int| 0 <= k < i ==> {
                &&& (#[trigger] r@[k]).id@ == controller_id_text(mode_word(mode), k as usize)
                &&& r@[k].ip_address@ == controller_host(mode, k)
                &&& r@[k].enabled
            },
        decreases 4 - i,
    {
        let (_, host) = controller_strings(mode, i);
        r.push(DummyController { id: controller_id(word, i), ip_address: host.to_owned(), enabled: true });
        i = i + 1;
    }
    r
}

} // verus!
