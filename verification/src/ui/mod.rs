//! The editor's modes and the logic behind its canvas: pseudocode shown beside each
//! algorithm, node labels, renumbering after a deletion and colouring nodes from a
//! snapshot.

use vstd::prelude::*;
use crate::algorithm::state::AlgorithmKind;
use crate::graph::{Graph, GraphView, Node, Edge, NodeVisualState};

pub mod editor;
pub mod playback;

verus! {

/// Colour scheme of the window.
#[derive(Debug, Clone, Copy, PartialEq, Eq, Structural)]
pub enum Theme {
    Dark,
    Light,
}

impl Default for Theme {
    fn default() -> (t: Self)
        ensures
            t == Theme::Dark,
    {
        Theme::Dark
    }
}

/// A colour as red, green, blue and alpha, premultiplied; alpha 255 is opaque.
#[derive(Debug, Clone, Copy, PartialEq, Eq, Structural)]
pub struct Rgba {
    pub r: u8,
    pub g: u8,
    pub b: u8,
    pub a: u8,
}

/// The colours of one theme: canvas, edges, nodes in each state, labels, the highlighted
/// pseudocode line, the status line and the cycle warning.
#[derive(Debug, Clone, Copy)]
pub struct ThemeColors {
    pub canvas_bg: Rgba,
    pub grid_line: Rgba,
    pub edge_default: Rgba,
    pub weight_label: Rgba,
    pub node_unvisited: Rgba,
    pub node_unvisited_stroke: Rgba,
    pub node_current: Rgba,
    pub node_current_stroke: Rgba,
    pub node_visited: Rgba,
    pub node_visited_stroke: Rgba,
    pub node_label: Rgba,
    pub start_marker: Rgba,
    pub drag_edge: Rgba,
    pub pseudocode_active_bg: Rgba,
    pub pseudocode_active_fg: Rgba,
    pub pseudocode_inactive_fg: Rgba,
    pub status_text: Rgba,
    pub negative_cycle_warn: Rgba,
}

/// The palette of each theme.
pub open spec fn palette(t: Theme) -> ThemeColors {
    match t {
        Theme::Dark => ThemeColors {
            canvas_bg: Rgba { r: 30, g: 30, b: 40, a: 255 },
            grid_line: Rgba { r: 60, g: 60, b: 80, a: 100 },
            edge_default: Rgba { r: 120, g: 140, b: 200, a: 255 },
            weight_label: Rgba { r: 200, g: 220, b: 255, a: 255 },
            node_unvisited: Rgba { r: 60, g: 90, b: 160, a: 255 },
            node_unvisited_stroke: Rgba { r: 120, g: 160, b: 255, a: 255 },
            node_current: Rgba { r: 220, g: 180, b: 0, a: 255 },
            node_current_stroke: Rgba { r: 255, g: 230, b: 100, a: 255 },
            node_visited: Rgba { r: 50, g: 160, b: 90, a: 255 },
            node_visited_stroke: Rgba { r: 100, g: 220, b: 140, a: 255 },
            node_label: Rgba { r: 255, g: 255, b: 255, a: 255 },
            start_marker: Rgba { r: 255, g: 120, b: 50, a: 255 },
            drag_edge: Rgba { r: 255, g: 200, b: 0, a: 255 },
            pseudocode_active_bg: Rgba { r: 255, g: 230, b: 100, a: 255 },
            pseudocode_active_fg: Rgba { r: 0, g: 0, b: 0, a: 255 },
            pseudocode_inactive_fg: Rgba { r: 220, g: 220, b: 220, a: 255 },
            status_text: Rgba { r: 180, g: 220, b: 255, a: 255 },
            negative_cycle_warn: Rgba { r: 255, g: 80, b: 80, a: 255 },
        },
        Theme::Light => ThemeColors {
            canvas_bg: Rgba { r: 240, g: 242, b: 248, a: 255 },
            grid_line: Rgba { r: 180, g: 190, b: 210, a: 120 },
            edge_default: Rgba { r: 80, g: 100, b: 160, a: 255 },
            weight_label: Rgba { r: 60, g: 80, b: 140, a: 255 },
            node_unvisited: Rgba { r: 130, g: 165, b: 230, a: 255 },
            node_unvisited_stroke: Rgba { r: 60, g: 100, b: 200, a: 255 },
            node_current: Rgba { r: 240, g: 190, b: 0, a: 255 },
            node_current_stroke: Rgba { r: 180, g: 130, b: 0, a: 255 },
            node_visited: Rgba { r: 80, g: 190, b: 120, a: 255 },
            node_visited_stroke: Rgba { r: 30, g: 130, b: 70, a: 255 },
            node_label: Rgba { r: 20, g: 20, b: 40, a: 255 },
            start_marker: Rgba { r: 220, g: 80, b: 30, a: 255 },
            drag_edge: Rgba { r: 200, g: 140, b: 0, a: 255 },
            pseudocode_active_bg: Rgba { r: 255, g: 235, b: 100, a: 255 },
            pseudocode_active_fg: Rgba { r: 0, g: 0, b: 0, a: 255 },
            pseudocode_inactive_fg: Rgba { r: 80, g: 80, b: 100, a: 255 },
            status_text: Rgba { r: 40, g: 80, b: 160, a: 255 },
            negative_cycle_warn: Rgba { r: 200, g: 40, b: 40, a: 255 },
        },
    }
}

impl Theme {
    /// The palette of the theme.
    pub fn colors(self) -> (c: ThemeColors)
        ensures
            c == palette(self),
    {
        match self {
            Theme::Dark => ThemeColors {
                canvas_bg: Rgba { r: 30, g: 30, b: 40, a: 255 },
                grid_line: Rgba { r: 60, g: 60, b: 80, a: 100 },
                edge_default: Rgba { r: 120, g: 140, b: 200, a: 255 },
                weight_label: Rgba { r: 200, g: 220, b: 255, a: 255 },
                node_unvisited: Rgba { r: 60, g: 90, b: 160, a: 255 },
                node_unvisited_stroke: Rgba { r: 120, g: 160, b: 255, a: 255 },
                node_current: Rgba { r: 220, g: 180, b: 0, a: 255 },
                node_current_stroke: Rgba { r: 255, g: 230, b: 100, a: 255 },
                node_visited: Rgba { r: 50, g: 160, b: 90, a: 255 },
                node_visited_stroke: Rgba { r: 100, g: 220, b: 140, a: 255 },
                node_label: Rgba { r: 255, g: 255, b: 255, a: 255 },
                start_marker: Rgba { r: 255, g: 120, b: 50, a: 255 },
                drag_edge: Rgba { r: 255, g: 200, b: 0, a: 255 },
                pseudocode_active_bg: Rgba { r: 255, g: 230, b: 100, a: 255 },
                pseudocode_active_fg: Rgba { r: 0, g: 0, b: 0, a: 255 },
                pseudocode_inactive_fg: Rgba { r: 220, g: 220, b: 220, a: 255 },
                status_text: Rgba { r: 180, g: 220, b: 255, a: 255 },
                negative_cycle_warn: Rgba { r: 255, g: 80, b: 80, a: 255 },
            },
            Theme::Light => ThemeColors {
                canvas_bg: Rgba { r: 240, g: 242, b: 248, a: 255 },
                grid_line: Rgba { r: 180, g: 190, b: 210, a: 120 },
                edge_default: Rgba { r: 80, g: 100, b: 160, a: 255 },
                weight_label: Rgba { r: 60, g: 80, b: 140, a: 255 },
                node_unvisited: Rgba { r: 130, g: 165, b: 230, a: 255 },
                node_unvisited_stroke: Rgba { r: 60, g: 100, b: 200, a: 255 },
                node_current: Rgba { r: 240, g: 190, b: 0, a: 255 },
                node_current_stroke: Rgba { r: 180, g: 130, b: 0, a: 255 },
                node_visited: Rgba { r: 80, g: 190, b: 120, a: 255 },
                node_visited_stroke: Rgba { r: 30, g: 130, b: 70, a: 255 },
                node_label: Rgba { r: 20, g: 20, b: 40, a: 255 },
                start_marker: Rgba { r: 220, g: 80, b: 30, a: 255 },
                drag_edge: Rgba { r: 200, g: 140, b: 0, a: 255 },
                pseudocode_active_bg: Rgba { r: 255, g: 235, b: 100, a: 255 },
                pseudocode_active_fg: Rgba { r: 0, g: 0, b: 0, a: 255 },
                pseudocode_inactive_fg: Rgba { r: 80, g: 80, b: 100, a: 255 },
                status_text: Rgba { r: 40, g: 80, b: 160, a: 255 },
                negative_cycle_warn: Rgba { r: 200, g: 40, b: 40, a: 255 },
            },
        }
    }
}

/// Where the editor stands with respect to a run.
#[derive(Debug, Clone, PartialEq, Eq, Structural)]
pub enum AppState {
    Editing,
    Running,
    Paused,
    Finished,
}

impl Default for AppState {
    fn default() -> (s: Self)
        ensures
            s == AppState::Editing,
    {
        AppState::Editing
    }
}

/// What a click on the canvas does.
#[derive(Debug, Clone, PartialEq, Eq, Structural)]
pub enum MouseMode {
    AddNode,
    AddEdge,
    Delete,
    Move,
}

impl Default for MouseMode {
    fn default() -> (m: Self)
        ensures
            m == MouseMode::AddNode,
    {
        MouseMode::AddNode
    }
}

/// The pseudocode shown beside each algorithm, line by line.
pub open spec fn pseudocode_text(kind: AlgorithmKind) -> Seq<Seq<char>> {
    match kind {
        AlgorithmKind::BFS => seq![
            "BFS(G, start):"@,
            "  visited[start] = true; enqueue(start)"@,
            "  while queue not empty:"@,
            "    node = dequeue()"@,
            "    for each neighbor of node:"@,
            "      if not visited[neighbor]:"@,
            "        visited[neighbor] = true"@,
            "        enqueue(neighbor)"@,
        ],
        AlgorithmKind::DFS => seq![
            "DFS(G, start):"@,
            "  push(start) to stack"@,
            "  while stack not empty:"@,
            "    node = pop()"@,
            "    if not visited[node]:"@,
            "      visited[node] = true"@,
            "      for each neighbor of node:"@,
            "        push(neighbor)"@,
        ],
        AlgorithmKind::Dijkstra => seq![
            "Dijkstra(G, start):"@,
            "  dist[start]=0; dist[v]=∞ for others"@,
            "  priority_queue.push((0, start))"@,
            "  while pq not empty:"@,
            "    (d, node) = pq.pop_min()"@,
            "    if visited[node]: continue"@,
            "    visited[node] = true"@,
            "    for each (neighbor, w) of node:"@,
            "      if dist[node]+w < dist[neighbor]:"@,
            "        dist[neighbor] = dist[node]+w"@,
            "        pq.push((dist[neighbor], neighbor))"@,
        ],
        AlgorithmKind::BellmanFord => seq![
            "BellmanFord(G, start):"@,
            "  dist[start]=0; dist[v]=∞ for others"@,
            "  repeat (V-1) times:"@,
            "    for each edge (u, v, w):"@,
            "      if dist[u]+w < dist[v]:"@,
            "        dist[v] = dist[u]+w   ← 완화"@,
            "    if no update: break early"@,
            "  for each edge: check negative cycle"@,
        ],
        AlgorithmKind::FloydWarshall => seq![
            "FloydWarshall(G):"@,
            "  dist[i][j] = w(i,j) or ∞"@,
            "  for k in 0..V:           ← 중간 노드"@,
            "    for i in 0..V:"@,
            "      for j in 0..V:"@,
            "        if dist[i][k]+dist[k][j] < dist[i][j]:"@,
            "          dist[i][j] = dist[i][k]+dist[k][j]"@,
            "  if dist[i][i] < 0: negative cycle"@,
        ],
        AlgorithmKind::AStar => seq![
            "A*(G, start, goal):"@,
            "  g[start]=0; f[start]=h(start,goal)"@,
            "  open_set.push((f[start], start))"@,
            "  while open_set not empty:"@,
            "    node = open_set.pop_min(f)"@,
            "    if node == goal: return g[goal]"@,
            "    for each (neighbor, w) of node:"@,
            "      tentative_g = g[node] + w"@,
            "      if tentative_g < g[neighbor]:"@,
            "        g[neighbor] = tentative_g"@,
            "        f[neighbor] = g[neighbor] + h(neighbor,goal)"@,
            "        open_set.push((f[neighbor], neighbor))"@,
        ],
        AlgorithmKind::Prim => seq![
            "Prim(G, start):"@,
            "  key[start]=0; key[v]=∞ for others"@,
            "  pq.push((0, start))"@,
            "  while pq not empty:"@,
            "    node = pq.pop_min(key)"@,
            "    if in_mst[node]: continue"@,
            "    in_mst[node] = true"@,
            "    for each (neighbor, w) of node:"@,
            "      if w < key[neighbor]:"@,
            "        key[neighbor] = w"@,
            "        pq.push((w, neighbor))"@,
        ],
        AlgorithmKind::Kruskal => seq![
            "Kruskal(G):"@,
            "  sort edges by weight ascending"@,
            "  init UnionFind for each node"@,
            "  for each edge (u, v, w):"@,
            "    if find(u) != find(v):   ← 사이클 없음"@,
            "      mst.add(u, v, w)"@,
            "      union(u, v)"@,
            "    else: skip  ← 사이클 형성"@,
            "  (MST complete when V-1 edges added)"@,
        ],
        AlgorithmKind::TopologicalSort => seq![
            "TopologicalSort(G) — Kahn's Algorithm:"@,
            "  in_degree[] 계산"@,
            "  진입차수=0 노드 → queue 삽입"@,
            "  while queue not empty:"@,
            "    node = queue.pop()"@,
            "    result.append(node)"@,
            "    for neighbor in adj[node]:"@,
            "      in_degree[neighbor] -= 1"@,
            "      if in_degree[neighbor] == 0: queue.push(neighbor)"@,
            "  if len(result) < V: 사이클 존재 (DAG 아님)"@,
        ],
        AlgorithmKind::BidirectionalBFS => seq![
            "BidirectionalBFS(G, start, goal):"@,
            "  fwd_queue=[start]; bwd_queue=[goal]"@,
            "  fwd_visited[start]=true; bwd_visited[goal]=true"@,
            "  while both queues not empty:"@,
            "    node = fwd_queue.pop()"@,
            "    for neighbor in adj[node]:"@,
            "      if not fwd_visited: enqueue fwd"@,
            "      if in bwd_visited: 교차 노드 → 종료"@,
            "    node = bwd_queue.pop() (역방향 반복)"@,
            "  경로 = forward_path + backward_path"@,
        ],
    }
}

/// The pseudocode shown beside `kind`, line by line.
pub fn pseudocode_lines(kind: AlgorithmKind) -> (r: Vec<&'static str>)
    ensures
        r.len() == pseudocode_text(kind).len(),
        forall|i: int| 0 <= i < r.len() ==> (#[trigger] r@[i])@ == pseudocode_text(kind)[i],
{
    match kind {
        AlgorithmKind::BFS => vec![
            "BFS(G, start):",
            "  visited[start] = true; enqueue(start)",
            "  while queue not empty:",
            "    node = dequeue()",
            "    for each neighbor of node:",
            "      if not visited[neighbor]:",
            "        visited[neighbor] = true",
            "        enqueue(neighbor)",
        ],
        AlgorithmKind::DFS => vec![
            "DFS(G, start):",
            "  push(start) to stack",
            "  while stack not empty:",
            "    node = pop()",
            "    if not visited[node]:",
            "      visited[node] = true",
            "      for each neighbor of node:",
            "        push(neighbor)",
        ],
        AlgorithmKind::Dijkstra => vec![
            "Dijkstra(G, start):",
            "  dist[start]=0; dist[v]=∞ for others",
            "  priority_queue.push((0, start))",
            "  while pq not empty:",
            "    (d, node) = pq.pop_min()",
            "    if visited[node]: continue",
            "    visited[node] = true",
            "    for each (neighbor, w) of node:",
            "      if dist[node]+w < dist[neighbor]:",
            "        dist[neighbor] = dist[node]+w",
            "        pq.push((dist[neighbor], neighbor))",
        ],
        AlgorithmKind::BellmanFord => vec![
            "BellmanFord(G, start):",
            "  dist[start]=0; dist[v]=∞ for others",
            "  repeat (V-1) times:",
            "    for each edge (u, v, w):",
            "      if dist[u]+w < dist[v]:",
            "        dist[v] = dist[u]+w   ← 완화",
            "    if no update: break early",
            "  for each edge: check negative cycle",
        ],
        AlgorithmKind::FloydWarshall => vec![
            "FloydWarshall(G):",
            "  dist[i][j] = w(i,j) or ∞",
            "  for k in 0..V:           ← 중간 노드",
            "    for i in 0..V:",
            "      for j in 0..V:",
            "        if dist[i][k]+dist[k][j] < dist[i][j]:",
            "          dist[i][j] = dist[i][k]+dist[k][j]",
            "  if dist[i][i] < 0: negative cycle",
        ],
        AlgorithmKind::AStar => vec![
            "A*(G, start, goal):",
            "  g[start]=0; f[start]=h(start,goal)",
            "  open_set.push((f[start], start))",
            "  while open_set not empty:",
            "    node = open_set.pop_min(f)",
            "    if node == goal: return g[goal]",
            "    for each (neighbor, w) of node:",
            "      tentative_g = g[node] + w",
            "      if tentative_g < g[neighbor]:",
            "        g[neighbor] = tentative_g",
            "        f[neighbor] = g[neighbor] + h(neighbor,goal)",
            "        open_set.push((f[neighbor], neighbor))",
        ],
        AlgorithmKind::Prim => vec![
            "Prim(G, start):",
            "  key[start]=0; key[v]=∞ for others",
            "  pq.push((0, start))",
            "  while pq not empty:",
            "    node = pq.pop_min(key)",
            "    if in_mst[node]: continue",
            "    in_mst[node] = true",
            "    for each (neighbor, w) of node:",
            "      if w < key[neighbor]:",
            "        key[neighbor] = w",
            "        pq.push((w, neighbor))",
        ],
        AlgorithmKind::Kruskal => vec![
            "Kruskal(G):",
            "  sort edges by weight ascending",
            "  init UnionFind for each node",
            "  for each edge (u, v, w):",
            "    if find(u) != find(v):   ← 사이클 없음",
            "      mst.add(u, v, w)",
            "      union(u, v)",
            "    else: skip  ← 사이클 형성",
            "  (MST complete when V-1 edges added)",
        ],
        AlgorithmKind::TopologicalSort => vec![
            "TopologicalSort(G) — Kahn's Algorithm:",
            "  in_degree[] 계산",
            "  진입차수=0 노드 → queue 삽입",
            "  while queue not empty:",
            "    node = queue.pop()",
            "    result.append(node)",
            "    for neighbor in adj[node]:",
            "      in_degree[neighbor] -= 1",
            "      if in_degree[neighbor] == 0: queue.push(neighbor)",
            "  if len(result) < V: 사이클 존재 (DAG 아님)",
        ],
        AlgorithmKind::BidirectionalBFS => vec![
            "BidirectionalBFS(G, start, goal):",
            "  fwd_queue=[start]; bwd_queue=[goal]",
            "  fwd_visited[start]=true; bwd_visited[goal]=true",
            "  while both queues not empty:",
            "    node = fwd_queue.pop()",
            "    for neighbor in adj[node]:",
            "      if not fwd_visited: enqueue fwd",
            "      if in bwd_visited: 교차 노드 → 종료",
            "    node = bwd_queue.pop() (역방향 반복)",
            "  경로 = forward_path + backward_path",
        ],
    }
}

/// The colour of node `i` in a snapshot: current if it is marked and is the node being
/// processed, visited if marked, unvisited otherwise.
pub open spec fn state_in_snapshot(flags: Seq<bool>, current: usize, i: int) -> NodeVisualState {
    if flags[i] {
        if i == current {
            NodeVisualState::Current
        } else {
            NodeVisualState::Visited
        }
    } else {
        NodeVisualState::Unvisited
    }
}

/// Colours the nodes after a snapshot's visited flags and current node; nodes beyond
/// the flags keep their colour.
pub fn apply_snapshot_states(graph: &mut Graph, flags: &Vec<bool>, current: usize)
    ensures
        final(graph).nodes.len() == old(graph).nodes.len(),
        final(graph).edges@ == old(graph).edges@,
        final(graph).is_directed == old(graph).is_directed,
        forall|i: int| 0 <= i < old(graph).nodes.len() ==> #[trigger] final(graph).nodes@[i] == if i < flags.len() {
            Node { visual_state: state_in_snapshot(flags@, current, i), ..old(graph).nodes@[i] }
        } else {
            old(graph).nodes@[i]
        },
{
    let ghost g0 = *graph;
    let mut j: usize = 0;
    while j < graph.nodes.len()
        invariant
            j <= graph.nodes.len(),
            graph.nodes.len() == g0.nodes.len(),
            graph.edges@ == g0.edges@,
            graph.is_directed == g0.is_directed,
            forall|i: int| 0 <= i < j ==> #[trigger] graph.nodes@[i] == if i < flags.len() {
                Node { visual_state: state_in_snapshot(flags@, current, i), ..g0.nodes@[i] }
            } else {
                g0.nodes@[i]
            },
            forall|i: int| j <= i < graph.nodes.len() ==> #[trigger] graph.nodes@[i] == g0.nodes@[i],
        decreases graph.nodes.len() - j,
    {
        if j < flags.len() {
            let state = if flags[j] {
                if j == current {
                    NodeVisualState::Current
                } else {
                    NodeVisualState::Visited
                }
            } else {
                NodeVisualState::Unvisited
            };
            let mut nd = graph.nodes[j].clone();
            nd.visual_state = state;
            graph.nodes.set(j, nd);
        }
        j = j + 1;
    }
}

/// Colours every node as visited, as when a run has played to its end.
pub fn mark_all_visited(graph: &mut Graph)
    ensures
        final(graph).nodes.len() == old(graph).nodes.len(),
        final(graph).edges@ == old(graph).edges@,
        final(graph).is_directed == old(graph).is_directed,
        forall|i: int| 0 <= i < old(graph).nodes.len() ==> #[trigger] final(graph).nodes@[i] == (Node {
            visual_state: NodeVisualState::Visited,
            ..old(graph).nodes@[i]
        }),
{
    let ghost g0 = *graph;
    let mut j: usize = 0;
    while j < graph.nodes.len()
        invariant
            j <= graph.nodes.len(),
            graph.nodes.len() == g0.nodes.len(),
            graph.edges@ == g0.edges@,
            graph.is_directed == g0.is_directed,
            forall|i: int| 0 <= i < j ==> #[trigger] graph.nodes@[i] == (Node {
                visual_state: NodeVisualState::Visited,
                ..g0.nodes@[i]
            }),
            forall|i: int| j <= i < graph.nodes.len() ==> #[trigger] graph.nodes@[i] == g0.nodes@[i],
        decreases graph.nodes.len() - j,
    {
        let mut nd = graph.nodes[j].clone();
        nd.visual_state = NodeVisualState::Visited;
        graph.nodes.set(j, nd);
        j = j + 1;
    }
}

} // verus!
