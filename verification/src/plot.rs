//! The decisions of the plotting tools that do not depend on coordinates:
//! the shape of a height grid, the kind of an overlaid series and how it is
//! drawn, and the colors of the markers along a route.
use vstd::prelude::*;

verus! {

/// Why a grid of heights cannot be drawn as a surface.
#[derive(Debug, Clone, Copy, PartialEq, Eq, Structural)]
pub enum GridError {
    /// Fewer than two rows, or a row with fewer than two heights.
    TooSmall,
    /// Rows of different lengths.
    Ragged,
}

/// The grid has fewer than two rows, or a row with fewer than two heights.
pub open spec fn grid_too_small(rows: Seq<usize>) -> bool {
    rows.len() < 2 || exists|i: int| 0 <= i < rows.len() && rows[i] < 2
}

/// Some row differs in length from the first.
pub open spec fn grid_ragged(rows: Seq<usize>) -> bool {
    exists|i: int| 0 <= i < rows.len() && #[trigger] rows[i] != rows[0]
}

/// A grid is ragged exactly when two of its rows differ in length, and too
/// small exactly when it has fewer than two rows or some row holds fewer than
/// two heights; a grid that is neither is a rectangle of at least 2×2.
pub proof fn law_grid_checks_mean_shape(rows: Seq<usize>)
    ensures
        grid_ragged(rows) <==> exists|i: int, j: int|
            #![trigger rows[i], rows[j]]
            0 <= i < rows.len() && 0 <= j < rows.len() && rows[i] != rows[j],
        grid_too_small(rows) <==> (rows.len() < 2 || exists|i: int|
            0 <= i < rows.len() && #[trigger] rows[i] < 2),
        !grid_too_small(rows) && !grid_ragged(rows) ==> {
            &&& rows.len() >= 2
            &&& forall|i: int| 0 <= i < rows.len() ==> #[trigger] rows[i] == rows[0] && rows[i] >= 2
        },
{
    if exists|i: int, j: int|
        #![trigger rows[i], rows[j]]
        0 <= i < rows.len() && 0 <= j < rows.len() && rows[i] != rows[j] {
        let (i, j) = choose|i: int, j: int|
            #![trigger rows[i], rows[j]]
            0 <= i < rows.len() && 0 <= j < rows.len() && rows[i] != rows[j];
        if rows[i] == rows[0] {
            assert(rows[j] != rows[0]);
        } else {
            assert(rows[i] != rows[0]);
        }
    }
    if grid_ragged(rows) {
        let i = choose|i: int| 0 <= i < rows.len() && #[trigger] rows[i] != rows[0];
        assert(rows[i] != rows[0]);
    }
}

/// The shape `(rows, columns)` of a height grid, given the length of each of
/// its rows. A grid smaller than 2×2 is refused first, then one whose rows
/// differ in length.
pub fn grid_shape(row_lengths: &Vec<usize>) -> (r: Result<(usize, usize), GridError>)
    ensures
        match r {
            Ok((rows, cols)) => {
                &&& !grid_too_small(row_lengths@)
                &&& !grid_ragged(row_lengths@)
                &&& rows == row_lengths@.len()
                &&& cols == row_lengths@[0]
                &&& rows >= 2
                &&& cols >= 2
                &&& forall|i: int| 0 <= i < row_lengths@.len() ==> #[trigger] row_lengths@[i] == cols
            },
            Err(GridError::TooSmall) => grid_too_small(row_lengths@),
            Err(GridError::Ragged) => !grid_too_small(row_lengths@) && grid_ragged(row_lengths@),
        },
{
    let n = row_lengths.len();
    if n < 2 {
        return Err(GridError::TooSmall);
    }
    let mut i: usize = 0;
    while i < n
        invariant
            n == row_lengths@.len(),
            i <= n,
            forall|j: int| 0 <= j < i ==> row_lengths@[j] >= 2,
        decreases n - i,
    {
        if row_lengths[i] < 2 {
            return Err(GridError::TooSmall);
        }
        i = i + 1;
    }
    let cols = row_lengths[0];
    let mut i: usize = 0;
    while i < n
        invariant
            n == row_lengths@.len(),
            i <= n,
            n >= 2,
            cols == row_lengths@[0],
            forall|j: int| 0 <= j < n ==> row_lengths@[j] >= 2,
            forall|j: int| 0 <= j < i ==> row_lengths@[j] == cols,
        decreases n - i,
    {
        if row_lengths[i] != cols {
            assert(row_lengths@[i as int] != row_lengths@[0]);
            return Err(GridError::Ragged);
        }
        i = i + 1;
    }
    Ok((n, cols))
}

/// Whether two texts are the same sequence of characters.
fn same_text(a: &str, b: &str) -> (r: bool)
    ensures
        r == (a@ == b@),
{
    let n = a.unicode_len();
    if n != b.unicode_len() {
        return false;
    }
    let mut i: usize = 0;
    while i < n
        invariant
            n == a@.len(),
            n == b@.len(),
            i <= n,
            forall|j: int| 0 <= j < i ==> a@[j] == b@[j],
        decreases n - i,
    {
        if a.get_char(i) != b.get_char(i) {
            return false;
        }
        i = i + 1;
    }
    assert(a@ =~= b@);
    true
}

/// The text of an optional kind, as characters.
pub open spec fn kind_text(kind: Option<&str>) -> Option<Seq<char>> {
    match kind {
        Some(k) => Some(k@),
        None => None,
    }
}

/// How a series of a 2D overlay is drawn.
#[derive(Debug, Clone, Copy, PartialEq, Eq, Structural)]
pub struct SeriesStyle {
    /// A polyline through the points.
    pub line: bool,
    /// A marker at each point.
    pub markers: bool,
}

/// The style of a 2D overlay series from its kind: `line` (the default) draws
/// the polyline, `scatter` the markers, `both` both; any other kind draws
/// nothing.
pub fn series_style(kind: Option<&str>) -> (s: SeriesStyle)
    ensures
        s.line == match kind_text(kind) {
            None => true,
            Some(k) => k == "line"@ || k == "both"@,
        },
        s.markers == match kind_text(kind) {
            None => false,
            Some(k) => k == "scatter"@ || k == "both"@,
        },
{
    match kind {
        None => SeriesStyle { line: true, markers: false },
        Some(k) => {
            let both = same_text(k, "both");
            SeriesStyle {
                line: both || same_text(k, "line"),
                markers: both || same_text(k, "scatter"),
            }
        },
    }
}

/// Whether a layer of a geographic overlay joins its points as a route: its
/// kind is `route` (the default kind, `points`, draws markers only).
pub fn layer_is_route(kind: Option<&str>) -> (r: bool)
    ensures
        r == (kind_text(kind) == Some("route"@)),
{
    match kind {
        None => false,
        Some(k) => same_text(k, "route"),
    }
}

/// The marker color of waypoint `i` of a route whose last waypoint is `last`:
/// green at the start, red at the end, blue between.
pub fn route_marker_color(i: usize, last: usize) -> (c: &'static str)
    ensures
        c@ == (if i == 0 {
            "#1faa59"@
        } else if i == last {
            "#e63946"@
        } else {
            "#2a6df4"@
        }),
{
    if i == 0 {
        "#1faa59"
    } else if i == last {
        "#e63946"
    } else {
        "#2a6df4"
    }
}

/// What a series of a 3D overlay holds.
#[derive(Debug, Clone, Copy, PartialEq, Eq, Structural)]
pub enum SeriesKind {
    /// A point cloud.
    Scatter,
    /// A height grid of the given shape.
    Surface { rows: usize, cols: usize },
}

/// Why a series of a 3D overlay cannot be drawn.
#[derive(Debug, Clone, Copy, PartialEq, Eq, Structural)]
pub enum SeriesError {
    /// No kind is given and the series has neither points nor a grid.
    NoData,
    /// A scatter series without points.
    NoPoints,
    /// A surface series whose grid cannot be drawn.
    Grid(GridError),
    /// A kind other than `scatter` and `surface`.
    UnknownKind,
}

/// The kind a 3D series is drawn as: the one given, else `scatter` where it
/// has points, else `surface` where it has grid rows, else none.
pub open spec fn chosen_kind(kind: Option<Seq<char>>, n_points: nat, n_rows: nat) -> Option<
    Seq<char>,
> {
    match kind {
        Some(k) => Some(k),
        None => if n_points > 0 {
            Some("scatter"@)
        } else if n_rows > 0 {
            Some("surface"@)
        } else {
            None
        },
    }
}

/// Resolves what a series of a 3D overlay is, from its kind, its number of
/// points and the lengths of the rows of its grid, and checks that it has
/// the data that kind needs.
pub fn resolve_series_3d(kind: Option<&str>, n_points: usize, row_lengths: &Vec<usize>) -> (r:
    Result<SeriesKind, SeriesError>)
    ensures
        ({
            let chosen = chosen_kind(kind_text(kind), n_points as nat, row_lengths@.len());
            match r {
                Ok(SeriesKind::Scatter) => chosen == Some("scatter"@) && n_points > 0,
                Ok(SeriesKind::Surface { rows, cols }) => {
                    &&& chosen == Some("surface"@)
                    &&& !grid_too_small(row_lengths@)
                    &&& !grid_ragged(row_lengths@)
                    &&& rows == row_lengths@.len()
                    &&& cols == row_lengths@[0]
                    &&& rows >= 2
                    &&& cols >= 2
                    &&& forall|i: int|
                        0 <= i < row_lengths@.len() ==> #[trigger] row_lengths@[i] == cols
                },
                Err(SeriesError::NoData) => chosen is None,
                Err(SeriesError::NoPoints) => chosen == Some("scatter"@) && n_points == 0,
                Err(SeriesError::Grid(GridError::TooSmall)) => {
                    chosen == Some("surface"@) && grid_too_small(row_lengths@)
                },
                Err(SeriesError::Grid(GridError::Ragged)) => {
                    &&& chosen == Some("surface"@)
                    &&& !grid_too_small(row_lengths@)
                    &&& grid_ragged(row_lengths@)
                },
                Err(SeriesError::UnknownKind) => {
                    &&& chosen is Some
                    &&& chosen != Some("scatter"@)
                    &&& chosen != Some("surface"@)
                },
            }
        }),
{
    let is_scatter = match kind {
        Some(k) => same_text(k, "scatter"),
        None => n_points > 0,
    };
    let is_surface = match kind {
        Some(k) => same_text(k, "surface"),
        None => n_points == 0 && row_lengths.len() > 0,
    };
    if kind.is_none() && n_points == 0 && row_lengths.len() == 0 {
        return Err(SeriesError::NoData);
    }
    if is_scatter {
        if n_points == 0 {
            Err(SeriesError::NoPoints)
        } else {
            Ok(SeriesKind::Scatter)
        }
    } else if is_surface {
        match grid_shape(row_lengths) {
            Ok((rows, cols)) => Ok(SeriesKind::Surface { rows, cols }),
            Err(e) => Err(SeriesError::Grid(e)),
        }
    } else {
        Err(SeriesError::UnknownKind)
    }
}

} // verus!
