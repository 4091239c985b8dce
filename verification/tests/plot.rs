use mcp_math_operations::plot::{
    grid_shape, layer_is_route, resolve_series_3d, route_marker_color, series_style, GridError,
    SeriesError, SeriesKind, SeriesStyle,
};

#[test]
fn grid_shape_of_rectangular_grid() {
    assert_eq!(grid_shape(&vec![2, 2]), Ok((2, 2)));
    assert_eq!(grid_shape(&vec![3, 3, 3, 3]), Ok((4, 3)));
}

#[test]
fn grid_shape_refuses_small_grids() {
    assert_eq!(grid_shape(&vec![]), Err(GridError::TooSmall));
    assert_eq!(grid_shape(&vec![5]), Err(GridError::TooSmall));
    assert_eq!(grid_shape(&vec![3, 1]), Err(GridError::TooSmall));
    // A short row is reported before rows of unequal length.
    assert_eq!(grid_shape(&vec![4, 3, 1]), Err(GridError::TooSmall));
}

#[test]
fn grid_shape_refuses_ragged_grids() {
    assert_eq!(grid_shape(&vec![3, 4]), Err(GridError::Ragged));
    assert_eq!(grid_shape(&vec![2, 2, 3]), Err(GridError::Ragged));
}

#[test]
fn overlay_series_styles() {
    let line = SeriesStyle { line: true, markers: false };
    assert_eq!(series_style(None), line);
    assert_eq!(series_style(Some("line")), line);
    assert_eq!(series_style(Some("scatter")), SeriesStyle { line: false, markers: true });
    assert_eq!(series_style(Some("both")), SeriesStyle { line: true, markers: true });
    assert_eq!(series_style(Some("bars")), SeriesStyle { line: false, markers: false });
    assert_eq!(series_style(Some("Line")), SeriesStyle { line: false, markers: false });
}

#[test]
fn geographic_layers_join_only_routes() {
    assert!(layer_is_route(Some("route")));
    assert!(!layer_is_route(Some("points")));
    assert!(!layer_is_route(Some("routes")));
    assert!(!layer_is_route(None));
}

#[test]
fn route_markers_mark_start_and_end() {
    assert_eq!(route_marker_color(0, 3), "#1faa59");
    assert_eq!(route_marker_color(1, 3), "#2a6df4");
    assert_eq!(route_marker_color(3, 3), "#e63946");
    assert_eq!(route_marker_color(0, 0), "#1faa59");
}

#[test]
fn series_kind_inferred_from_data() {
    assert_eq!(resolve_series_3d(None, 4, &vec![]), Ok(SeriesKind::Scatter));
    assert_eq!(resolve_series_3d(None, 4, &vec![2, 2]), Ok(SeriesKind::Scatter));
    assert_eq!(
        resolve_series_3d(None, 0, &vec![3, 3]),
        Ok(SeriesKind::Surface { rows: 2, cols: 3 })
    );
    assert_eq!(resolve_series_3d(None, 0, &vec![]), Err(SeriesError::NoData));
    assert_eq!(
        resolve_series_3d(None, 0, &vec![3, 2]),
        Err(SeriesError::Grid(GridError::Ragged))
    );
}

#[test]
fn series_kind_given_explicitly() {
    assert_eq!(resolve_series_3d(Some("scatter"), 1, &vec![]), Ok(SeriesKind::Scatter));
    assert_eq!(resolve_series_3d(Some("scatter"), 0, &vec![2, 2]), Err(SeriesError::NoPoints));
    assert_eq!(
        resolve_series_3d(Some("surface"), 9, &vec![2, 2, 2]),
        Ok(SeriesKind::Surface { rows: 3, cols: 2 })
    );
    assert_eq!(
        resolve_series_3d(Some("surface"), 9, &vec![2]),
        Err(SeriesError::Grid(GridError::TooSmall))
    );
    assert_eq!(resolve_series_3d(Some("mesh"), 9, &vec![2, 2]), Err(SeriesError::UnknownKind));
}
