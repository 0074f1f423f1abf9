use vackrooms::authoring::{stamp_cells, AuthoredElement, AuthoringSession, EditOp};
use vackrooms::voxel_grid::{VoxelGrid, VOXEL_AIR, VOXEL_WALL};

fn wall(name: &'static str) -> AuthoredElement<&'static str> {
    AuthoredElement { solid: name, op: EditOp::Add, material: VOXEL_WALL }
}

fn door(name: &'static str) -> AuthoredElement<&'static str> {
    AuthoredElement { solid: name, op: EditOp::Cut, material: VOXEL_AIR }
}

#[test]
fn undo_removes_the_last_operation_only() {
    let mut session = AuthoringSession::new();
    assert!(session.is_empty());
    session.push(wall("wall")).push(door("door"));
    assert_eq!(session.elements().len(), 2);
    let undone = session.undo();
    assert_eq!(undone.map(|e| e.solid), Some("door"));
    assert_eq!(session.elements().len(), 1);
    assert_eq!(session.elements()[0].solid, "wall");
    assert_eq!(session.undo().map(|e| e.op), Some(EditOp::Add));
    assert!(session.undo().is_none());
    assert!(session.is_empty());
}

#[test]
fn order_is_the_edit_history() {
    let cells = vec![(2usize, 1usize, 2usize), (3, 1, 2)];
    // Cutting before building leaves the wall whole.
    let mut grid = VoxelGrid::new(6, 3, 6);
    stamp_cells(&mut grid, EditOp::Cut, VOXEL_AIR, &cells);
    stamp_cells(&mut grid, EditOp::Add, VOXEL_WALL, &cells);
    assert_eq!(grid.get(2, 1, 2), VOXEL_WALL);
    // Cutting after building leaves the doorway.
    let mut grid = VoxelGrid::new(6, 3, 6);
    stamp_cells(&mut grid, EditOp::Add, VOXEL_WALL, &cells);
    stamp_cells(&mut grid, EditOp::Cut, 9, &cells[..1].to_vec());
    assert_eq!(grid.get(2, 1, 2), VOXEL_AIR, "a cut writes air whatever material it carries");
    assert_eq!(grid.get(3, 1, 2), VOXEL_WALL);
    assert_eq!(grid.get(4, 1, 2), VOXEL_AIR);
}
