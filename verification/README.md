# battlesnake

A BattleSnake player for an 11 x 11 board, verified with Verus.

The library under `src/` holds everything that decides: the board and its
directions, sets of cells, snakes and positions, the rules of a turn, flood
fill, territories, A*, the opponents, the evaluation of positions, the search
and the player's choice. Each function states in its contract what it returns,
in terms of a model of the game: a snake is its health, its life and the
sequence of its cells, a position is four snakes, a set of food cells and a
turn. Next to the functions stand the laws that hold of them, as public proof
functions: a head is never an obstacle, a route is a shortest one, the
territories share out the cells that can be reached, pruning does not change
the value of a search, the player never leaves the board, the figures at the
end of a game add up, and so on.

| module | what it holds |
| --- | --- |
| `grid` | cells, coordinates, directions |
| `bitboard` | sets of cells in two machine words |
| `walk` | walks, distances and regions, as mathematics |
| `snake`, `state` | snakes and positions |
| `sim` | the rules of a turn |
| `fill`, `voronoi`, `path` | space, territory, shortest ways |
| `tactics` | safe and risky moves, coiling |
| `enemy` | the opponents |
| `eval`, `minimax` | the value of a position, and looking ahead |
| `player` | the player's choice |
| `rng`, `selfplay` | a game against the opponents |
| `text`, `api` | the messages of the protocol |

The program under `app/` serves the BattleSnake API over HTTP (`GET /`,
`POST /start`, `POST /move`, `POST /end`; the port is taken from `PORT`, 8080
by default), or plays a game against the opponents with
`selfplay [turns]`.
