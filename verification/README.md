# Takoyaki

Takoyaki simulates Splatoon 3's Tableturf battle (ナワバトラー) and holds AI
players for it: a random player, a Monte Carlo tree search player, and a
genetic algorithm that builds decks from an inventory of cards.

The library under `src/` is written in Verus; the rules of the game, the
players' move generation, the search tree, the protocol messages, the
server and client turn logic and the deck builder's steps carry contracts
that Verus proves.

- `board`, `card`, `game`, `state`: the board, the cards, the actions and the
  rules that turn a state and two actions into the next state.
- `players`, `random`, `mcts`: valid actions, the random player and the
  search tree of the MCTS player.
- `local`, `deck_builder`, `stats`: games between two players, battles,
  crossover and mutation of decks, and result counting.
- `proto`, `session`: the messages between server and client and the turn
  logic on both sides.
- `text`: small string helpers.

`app/` is the program around it: command line, files, network, the UCB1
choice of the search (floating point) and the mutation rate of the deck
builder.
